use vstd::prelude::*;
use vstd::string::StrSliceExecFns;

verus! {

/// Whether `a` comes strictly before `b`: lexicographic order on the
/// characters' code points, which is the order of Rust's `str`.
pub open spec fn text_lt(a: Seq<char>, b: Seq<char>) -> bool
    decreases a.len(),
{
    if a.len() == 0 {
        b.len() > 0
    } else if b.len() == 0 {
        false
    } else if a[0] != b[0] {
        (a[0] as u32) < (b[0] as u32)
    } else {
        text_lt(a.drop_first(), b.drop_first())
    }
}

/// Whether every element of `s` comes strictly before the later ones.
pub open spec fn strictly_sorted(s: Seq<Seq<char>>) -> bool {
    forall|i: int, j: int| 0 <= i < j < s.len() ==> text_lt(#[trigger] s[i], #[trigger] s[j])
}

/// The names of `names` in increasing order.
pub open spec fn sorted_names(names: Set<Seq<char>>) -> Seq<Seq<char>> {
    choose|q: Seq<Seq<char>>| q.to_set() == names && q.no_duplicates() && strictly_sorted(q)
}

pub proof fn lemma_text_lt_irreflexive(a: Seq<char>)
    ensures
        !text_lt(a, a),
    decreases a.len(),
{
    if a.len() > 0 {
        lemma_text_lt_irreflexive(a.drop_first());
    }
}

pub proof fn lemma_text_lt_transitive(a: Seq<char>, b: Seq<char>, c: Seq<char>)
    requires
        text_lt(a, b),
        text_lt(b, c),
    ensures
        text_lt(a, c),
    decreases a.len(),
{
    if a.len() > 0 && b.len() > 0 && c.len() > 0 {
        if a[0] == b[0] && b[0] == c[0] {
            lemma_text_lt_transitive(a.drop_first(), b.drop_first(), c.drop_first());
        }
    }
}

pub proof fn lemma_text_lt_total(a: Seq<char>, b: Seq<char>)
    requires
        a != b,
    ensures
        text_lt(a, b) || text_lt(b, a),
    decreases a.len(),
{
    if a.len() > 0 && b.len() > 0 {
        if a[0] == b[0] {
            if a.drop_first() == b.drop_first() {
                assert(a =~= seq![a[0]] + a.drop_first());
                assert(b =~= seq![b[0]] + b.drop_first());
            }
            lemma_text_lt_total(a.drop_first(), b.drop_first());
        } else {
            vstd::utf8::char_u32_cast(a[0], a[0] as u32);
            vstd::utf8::char_u32_cast(b[0], b[0] as u32);
        }
    } else if a.len() == 0 && b.len() == 0 {
        assert(a =~= b);
    }
}

pub proof fn lemma_text_lt_asymmetric(a: Seq<char>, b: Seq<char>)
    requires
        text_lt(a, b),
    ensures
        !text_lt(b, a),
{
    if text_lt(b, a) {
        lemma_text_lt_transitive(a, b, a);
        lemma_text_lt_irreflexive(a);
    }
}

/// Two increasing arrangements of one set are the same sequence.
pub proof fn lemma_sorted_unique(a: Seq<Seq<char>>, b: Seq<Seq<char>>)
    requires
        strictly_sorted(a),
        strictly_sorted(b),
        a.to_set() == b.to_set(),
        a.no_duplicates(),
        b.no_duplicates(),
    ensures
        a == b,
    decreases a.len(),
{
    if a.len() == 0 {
        if b.len() > 0 {
            assert(b.to_set().contains(b[0]));
        }
        assert(a =~= b);
    } else {
        assert(a.to_set().contains(a[0]));
        assert(b.to_set().contains(a[0]));
        let j = choose|j: int| 0 <= j < b.len() && b[j] == a[0];
        assert(b.to_set().contains(b[0]));
        assert(a.to_set().contains(b[0]));
        let i = choose|i: int| 0 <= i < a.len() && a[i] == b[0];
        if j > 0 {
            assert(text_lt(b[0], b[j]));
            if i > 0 {
                assert(text_lt(a[0], a[i]));
                lemma_text_lt_asymmetric(a[0], a[i]);
            } else {
                lemma_text_lt_irreflexive(a[0]);
            }
        }
        assert(a[0] == b[0]);
        let a1 = a.drop_first();
        let b1 = b.drop_first();
        assert(a1.to_set() == b1.to_set()) by {
            assert forall|x: Seq<char>| a1.to_set().contains(x) implies b1.to_set().contains(x) by {
                let k = choose|k: int| 0 <= k < a1.len() && a1[k] == x;
                assert(a[k + 1] == x);
                assert(b.to_set().contains(x));
                let m = choose|m: int| 0 <= m < b.len() && b[m] == x;
                if m == 0 {
                    assert(a[0] == a[k + 1]);
                }
                assert(b1[m - 1] == x);
            }
            assert forall|x: Seq<char>| b1.to_set().contains(x) implies a1.to_set().contains(x) by {
                let k = choose|k: int| 0 <= k < b1.len() && b1[k] == x;
                assert(b[k + 1] == x);
                assert(a.to_set().contains(x));
                let m = choose|m: int| 0 <= m < a.len() && a[m] == x;
                if m == 0 {
                    assert(b[0] == b[k + 1]);
                }
                assert(a1[m - 1] == x);
            }
            assert(a1.to_set() =~= b1.to_set());
        }
        assert(strictly_sorted(a1));
        assert(strictly_sorted(b1));
        lemma_sorted_unique(a1, b1);
        assert(a =~= seq![a[0]] + a1);
        assert(b =~= seq![b[0]] + b1);
    }
}

/// Whether `a` comes strictly before `b` in the order of `text_lt`.
pub fn text_less(a: &str, b: &str) -> (r: bool)
    ensures
        r == text_lt(a@, b@),
{
    let n = a.unicode_len();
    let m = b.unicode_len();
    let mut i: usize = 0;
    assert(a@.skip(0) == a@ && b@.skip(0) == b@);
    while i < n && i < m
        invariant
            n == a@.len(),
            m == b@.len(),
            i <= n,
            i <= m,
            text_lt(a@, b@) == text_lt(a@.skip(i as int), b@.skip(i as int)),
        decreases n - i,
    {
        let x = a.get_char(i);
        let y = b.get_char(i);
        assert(a@.skip(i as int)[0] == x);
        assert(b@.skip(i as int)[0] == y);
        if x != y {
            return (x as u32) < (y as u32);
        }
        assert(a@.skip(i as int).drop_first() == a@.skip(i + 1));
        assert(b@.skip(i as int).drop_first() == b@.skip(i + 1));
        i = i + 1;
    }
    i == n && i < m
}

/// `names` in increasing order.
pub fn sort_names(names: &Vec<String>) -> (r: Vec<String>)
    requires
        names@.map_values(|s: String| s@).no_duplicates(),
    ensures
        r@.map_values(|s: String| s@) == sorted_names(names@.map_values(|s: String| s@).to_set()),
        r@.map_values(|s: String| s@).to_set() == names@.map_values(|s: String| s@).to_set(),
        r@.map_values(|s: String| s@).no_duplicates(),
        strictly_sorted(r@.map_values(|s: String| s@)),
{
    let ghost input = names@.map_values(|s: String| s@);
    let mut out: Vec<String> = Vec::new();
    let mut i: usize = 0;
    while i < names.len()
        invariant
            i <= names.len(),
            input == names@.map_values(|s: String| s@),
            input.no_duplicates(),
            out@.map_values(|s: String| s@).to_set() == input.take(i as int).to_set(),
            out@.map_values(|s: String| s@).no_duplicates(),
            strictly_sorted(out@.map_values(|s: String| s@)),
        decreases names.len() - i,
    {
        let x = names[i].clone();
        let ghost xv = x@;
        let ghost ov = out@.map_values(|s: String| s@);
        assert(xv == input[i as int]);
        assert(!ov.to_set().contains(xv)) by {
            if ov.to_set().contains(xv) {
                assert(input.take(i as int).to_set().contains(xv));
                let k = choose|k: int| 0 <= k < i && input.take(i as int)[k] == xv;
                assert(input[k] == input[i as int]);
            }
        }
        let mut p: usize = 0;
        while p < out.len() && text_less(out[p].as_str(), x.as_str())
            invariant
                p <= out.len(),
                ov == out@.map_values(|s: String| s@),
                xv == x@,
                forall|k: int| 0 <= k < p ==> text_lt(#[trigger] ov[k], xv),
            decreases out.len() - p,
        {
            p = p + 1;
        }
        proof {
            if p < out.len() {
                assert(ov[p as int] != xv) by {
                    assert(ov.to_set().contains(ov[p as int]));
                }
                lemma_text_lt_total(ov[p as int], xv);
                assert forall|k: int| p <= k < ov.len() implies text_lt(xv, #[trigger] ov[k]) by {
                    if k > p {
                        lemma_text_lt_transitive(xv, ov[p as int], ov[k]);
                    }
                }
            }
        }
        out.insert(p, x);
        proof {
            let nv = out@.map_values(|s: String| s@);
            assert(nv =~= ov.insert(p as int, xv));
            assert(strictly_sorted(nv)) by {
                assert forall|a: int, b: int| 0 <= a < b < nv.len() implies text_lt(
                    #[trigger] nv[a],
                    #[trigger] nv[b],
                ) by {
                    if a < p && b < p {
                        assert(nv[a] == ov[a] && nv[b] == ov[b]);
                    } else if a < p && b == p {
                    } else if a < p {
                        assert(nv[a] == ov[a] && nv[b] == ov[b - 1]);
                    } else if a == p {
                        assert(nv[b] == ov[b - 1]);
                    } else {
                        assert(nv[a] == ov[a - 1] && nv[b] == ov[b - 1]);
                    }
                }
            }
            assert(nv.no_duplicates()) by {
                assert forall|a: int, b: int| 0 <= a < b < nv.len() implies nv[a] != nv[b] by {
                    lemma_text_lt_irreflexive(nv[a]);
                }
            }
            assert(input.take(i + 1) == input.take(i as int).push(xv));
            assert(nv.to_set() =~= input.take(i + 1).to_set()) by {
                assert forall|y: Seq<char>| nv.to_set().contains(y) implies input.take(i + 1).to_set().contains(y) by {
                    let k = choose|k: int| 0 <= k < nv.len() && nv[k] == y;
                    if k < p {
                        assert(ov.to_set().contains(ov[k]));
                    } else if k > p {
                        assert(ov.to_set().contains(ov[k - 1]));
                    }
                    input.take(i as int).lemma_push_to_set_commute(xv);
                }
                assert forall|y: Seq<char>| input.take(i + 1).to_set().contains(y) implies nv.to_set().contains(y) by {
                    input.take(i as int).lemma_push_to_set_commute(xv);
                    if y == xv {
                        assert(nv[p as int] == xv);
                    } else {
                        assert(ov.to_set().contains(y));
                        let k = choose|k: int| 0 <= k < ov.len() && ov[k] == y;
                        if k < p {
                            assert(nv[k] == y);
                        } else {
                            assert(nv[k + 1] == y);
                        }
                    }
                }
            }
        }
        i = i + 1;
    }
    proof {
        let ov = out@.map_values(|s: String| s@);
        assert(input.take(names.len() as int) == input);
        let q = sorted_names(input.to_set());
        assert(ov.to_set() == input.to_set() && ov.no_duplicates() && strictly_sorted(ov));
        assert(q.to_set() == input.to_set() && q.no_duplicates() && strictly_sorted(q));
        lemma_sorted_unique(ov, q);
    }
    out
}

} // verus!
