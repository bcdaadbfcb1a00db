use vstd::prelude::*;

verus! {

/// Lexicographic order on character sequences, by code point; a proper
/// prefix comes first. For UTF-8 text this is the order of `String`.
pub open spec fn lex_lt(a: Seq<char>, b: Seq<char>) -> bool
    decreases a.len(),
{
    if b.len() == 0 {
        false
    } else if a.len() == 0 {
        true
    } else if a[0] != b[0] {
        (a[0] as int) < (b[0] as int)
    } else {
        lex_lt(a.drop_first(), b.drop_first())
    }
}

/// Every earlier element is strictly smaller than every later one: sorted
/// and free of duplicates.
pub open spec fn strictly_sorted(s: Seq<Seq<char>>) -> bool {
    forall|i: int, j: int| 0 <= i < j < s.len() ==> lex_lt(#[trigger] s[i], #[trigger] s[j])
}

/// The views of a sequence of strings.
pub open spec fn strings_view(v: Seq<String>) -> Seq<Seq<char>> {
    v.map_values(|s: String| s@)
}

/// `parts` joined with `sep` between neighbours.
pub open spec fn join(parts: Seq<Seq<char>>, sep: Seq<char>) -> Seq<char>
    decreases parts.len(),
{
    if parts.len() == 0 {
        Seq::empty()
    } else if parts.len() == 1 {
        parts[0]
    } else {
        join(parts.drop_last(), sep) + sep + parts.last()
    }
}

pub proof fn lemma_lex_transitive(a: Seq<char>, b: Seq<char>, c: Seq<char>)
    requires
        lex_lt(a, b),
        lex_lt(b, c),
    ensures
        lex_lt(a, c),
    decreases a.len(),
{
    if a.len() > 0 && a[0] == b[0] && b[0] == c[0] {
        lemma_lex_transitive(a.drop_first(), b.drop_first(), c.drop_first());
    }
}

pub proof fn lemma_lex_total(a: Seq<char>, b: Seq<char>)
    requires
        a != b,
    ensures
        lex_lt(a, b) || lex_lt(b, a),
    decreases a.len(),
{
    if a.len() > 0 && b.len() > 0 && a[0] == b[0] {
        if a.drop_first() == b.drop_first() {
            assert(a =~= seq![a[0]] + a.drop_first());
            assert(b =~= seq![b[0]] + b.drop_first());
        }
        lemma_lex_total(a.drop_first(), b.drop_first());
    } else if a.len() > 0 && b.len() > 0 {
        assert((a[0] as int) != (b[0] as int));
    } else if a.len() == 0 && b.len() == 0 {
        assert(a =~= b);
    }
}

pub proof fn lemma_push_to_set(s: Seq<Seq<char>>, a: Seq<char>)
    ensures
        s.push(a).to_set() == s.to_set().insert(a),
{
    assert forall|y: Seq<char>| s.push(a).to_set().contains(y) <==> s.to_set().insert(a).contains(y) by {
        if s.push(a).contains(y) {
            let t = choose|t: int| 0 <= t < s.len() + 1 && s.push(a)[t] == y;
            if t < s.len() {
                assert(s[t] == y);
            }
        }
        if s.contains(y) {
            let t = choose|t: int| 0 <= t < s.len() && s[t] == y;
            assert(s.push(a)[t] == y);
        }
        if y == a {
            assert(s.push(a)[s.len() as int] == y);
        }
    }
    assert(s.push(a).to_set() =~= s.to_set().insert(a));
}

/// Whether `a` comes strictly before `b`.
pub fn str_less(a: &str, b: &str) -> (r: bool)
    ensures
        r == lex_lt(a@, b@),
{
    let la = a.unicode_len();
    let lb = b.unicode_len();
    let mut i: usize = 0;
    proof {
        assert(a@.subrange(0, la as int) =~= a@);
        assert(b@.subrange(0, lb as int) =~= b@);
    }
    while i < la && i < lb
        invariant
            la == a@.len(),
            lb == b@.len(),
            i <= la,
            i <= lb,
            lex_lt(a@, b@) == lex_lt(a@.subrange(i as int, la as int), b@.subrange(i as int, lb as int)),
        decreases la - i,
    {
        let ca = a.get_char(i);
        let cb = b.get_char(i);
        assert(a@.subrange(i as int, la as int).drop_first() =~= a@.subrange(i + 1, la as int));
        assert(b@.subrange(i as int, lb as int).drop_first() =~= b@.subrange(i + 1, lb as int));
        if ca != cb {
            return (ca as u32) < (cb as u32);
        }
        i = i + 1;
    }
    i == la && i < lb
}

/// The strings of `v`, sorted and with duplicates removed.
pub fn sort_dedup(v: Vec<String>) -> (r: Vec<String>)
    ensures
        strictly_sorted(strings_view(r@)),
        strings_view(r@).to_set() == strings_view(v@).to_set(),
{
    let mut r: Vec<String> = Vec::new();
    let mut k: usize = 0;
    while k < v.len()
        invariant
            k <= v.len(),
            strictly_sorted(strings_view(r@)),
            strings_view(r@).to_set() == strings_view(v@.subrange(0, k as int)).to_set(),
        decreases v.len() - k,
    {
        let x = v[k].clone();
        let mut pos: usize = 0;
        while pos < r.len() && str_less(r[pos].as_str(), x.as_str())
            invariant
                pos <= r.len(),
                forall|j: int| 0 <= j < pos ==> lex_lt(#[trigger] r@[j]@, x@),
            decreases r.len() - pos,
        {
            pos = pos + 1;
        }
        proof {
            assert(strings_view(v@.subrange(0, k + 1)) =~= strings_view(v@.subrange(0, k as int)).push(x@));
            lemma_push_to_set(strings_view(v@.subrange(0, k as int)), x@);
        }
        let dup = pos < r.len() && r[pos] == x;
        if dup {
            proof {
                assert(strings_view(r@)[pos as int] == x@);
                assert(strings_view(r@).to_set() =~= strings_view(r@).to_set().insert(x@));
            }
        } else {
            let ghost old_r = r@;
            proof {
                if pos < r.len() {
                    lemma_lex_total(r@[pos as int]@, x@);
                }
            }
            r.insert(pos, x);
            proof {
                assert(strings_view(r@) =~= strings_view(old_r).insert(pos as int, x@));
                assert forall|i: int, j: int| 0 <= i < j < r@.len() implies lex_lt(
                    #[trigger] strings_view(r@)[i],
                    #[trigger] strings_view(r@)[j],
                ) by {
                    if i < pos && j == pos {
                    } else if i < pos && j > pos {
                    } else if i == pos && j > pos {
                        if j - 1 > pos {
                            assert(lex_lt(strings_view(old_r)[pos as int], strings_view(old_r)[j - 1]));
                            lemma_lex_transitive(x@, old_r[pos as int]@, old_r[j - 1]@);
                        }
                    } else {
                    }
                }
                let nv = strings_view(r@);
                let ov = strings_view(old_r);
                assert forall|y: Seq<char>| nv.to_set().contains(y) <==> ov.to_set().insert(
                    x@,
                ).contains(y) by {
                    if nv.contains(y) {
                        let t = choose|t: int| 0 <= t < nv.len() && nv[t] == y;
                        if t < pos {
                            assert(ov[t] == y);
                        } else if t > pos {
                            assert(ov[t - 1] == y);
                        }
                    }
                    if ov.contains(y) {
                        let t = choose|t: int| 0 <= t < ov.len() && ov[t] == y;
                        if t < pos {
                            assert(nv[t] == y);
                        } else {
                            assert(nv[t + 1] == y);
                        }
                    }
                    if y == x@ {
                        assert(nv[pos as int] == y);
                    }
                }
                assert(nv.to_set() =~= ov.to_set().insert(x@));
            }
        }
        k = k + 1;
    }
    proof {
        assert(v@.subrange(0, v.len() as int) =~= v@);
    }
    r
}

/// A copy of `v`, string by string.
pub fn clone_strings(v: &Vec<String>) -> (r: Vec<String>)
    ensures
        strings_view(r@) == strings_view(v@),
{
    let mut r: Vec<String> = Vec::new();
    let mut i: usize = 0;
    while i < v.len()
        invariant
            i <= v.len(),
            strings_view(r@) == strings_view(v@.subrange(0, i as int)),
        decreases v.len() - i,
    {
        let ghost old_r = r@;
        r.push(v[i].clone());
        proof {
            assert(strings_view(r@) =~= strings_view(old_r).push(v@[i as int]@));
            assert(strings_view(v@.subrange(0, i + 1)) =~= strings_view(v@.subrange(0, i as int)).push(
                v@[i as int]@,
            ));
        }
        i = i + 1;
    }
    proof {
        assert(v@.subrange(0, v.len() as int) =~= v@);
    }
    r
}

/// `parts` joined with `sep`.
pub fn join_strings(parts: &Vec<String>, sep: &str) -> (r: String)
    ensures
        r@ == join(strings_view(parts@), sep@),
{
    let mut r = String::new();
    let mut i: usize = 0;
    while i < parts.len()
        invariant
            i <= parts.len(),
            r@ == join(strings_view(parts@).subrange(0, i as int), sep@),
        decreases parts.len() - i,
    {
        if i > 0 {
            r.append(sep);
        }
        r.append(parts[i].as_str());
        proof {
            let s = strings_view(parts@).subrange(0, i + 1);
            assert(s.drop_last() =~= strings_view(parts@).subrange(0, i as int));
            if i == 0 {
                assert(r@ =~= s[0]);
            }
        }
        i = i + 1;
    }
    proof {
        assert(strings_view(parts@).subrange(0, parts.len() as int) =~= strings_view(parts@));
    }
    r
}

} // verus!
