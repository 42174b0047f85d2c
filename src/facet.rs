//! Facet paths: comma-separated hierarchy levels such as
//! `"Z, ZONISAMIDE, ZONISAMIDE ARISTO 25 MG HARD CAPSULES"`.
use vstd::prelude::*;

verus! {

/// The characters that `char::is_whitespace` accepts (Unicode White_Space).
pub open spec fn is_space_spec(c: char) -> bool {
    let u = c as u32;
    (0x9 <= u <= 0xd) || u == 0x20 || u == 0x85 || u == 0xa0 || u == 0x1680 || (0x2000 <= u
        <= 0x200a) || u == 0x2028 || u == 0x2029 || u == 0x202f || u == 0x205f || u == 0x3000
}

pub fn is_space(c: char) -> (r: bool)
    ensures
        r == is_space_spec(c),
{
    let u = c as u32;
    (0x9 <= u && u <= 0xd) || u == 0x20 || u == 0x85 || u == 0xa0 || u == 0x1680 || (0x2000 <= u
        && u <= 0x200a) || u == 0x2028 || u == 0x2029 || u == 0x202f || u == 0x205f || u == 0x3000
}

/// Leading white space removed.
pub open spec fn trim_start(s: Seq<char>) -> Seq<char>
    decreases s.len(),
{
    if s.len() > 0 && is_space_spec(s[0]) {
        trim_start(s.drop_first())
    } else {
        s
    }
}

/// Trailing white space removed.
pub open spec fn trim_end(s: Seq<char>) -> Seq<char>
    decreases s.len(),
{
    if s.len() > 0 && is_space_spec(s.last()) {
        trim_end(s.drop_last())
    } else {
        s
    }
}

pub open spec fn trim(s: Seq<char>) -> Seq<char> {
    trim_end(trim_start(s))
}

/// The pieces of `s` between commas, in order; a string without a comma is one piece.
pub open spec fn split_commas(s: Seq<char>) -> Seq<Seq<char>>
    decreases s.len(),
{
    if s.len() == 0 {
        seq![Seq::empty()]
    } else {
        let r = split_commas(s.drop_last());
        if s.last() == ',' {
            r.push(Seq::empty())
        } else {
            r.update(r.len() - 1, r.last().push(s.last()))
        }
    }
}

/// The (substance, product) pair a facet path names: its second and third
/// pieces, trimmed, where it has at least three.
pub open spec fn parse_facet_spec(s: Seq<char>) -> Option<(Seq<char>, Seq<char>)> {
    let p = split_commas(s);
    if p.len() < 3 {
        None
    } else {
        Some((trim(p[1]), trim(p[2])))
    }
}

/// Relies on `str::chars`: the characters of the string, in order.
#[verifier::external_body]
pub(crate) fn chars_of(s: &str) -> (r: Vec<char>)
    ensures
        r@ == s@,
{
    s.chars().collect()
}

/// Relies on `String`'s `FromIterator<&char>`: the string made of these characters, in order.
#[verifier::external_body]
pub(crate) fn string_of(c: &[char]) -> (r: String)
    ensures
        r@ == c@,
{
    c.iter().collect()
}

/// The pieces of a string between commas.
pub fn split_commas_exec(s: &Vec<char>) -> (r: Vec<Vec<char>>)
    ensures
        r@.len() == split_commas(s@).len(),
        forall|j: int| 0 <= j < r@.len() ==> (#[trigger] r@[j])@ == split_commas(s@)[j],
{
    let mut segs: Vec<Vec<char>> = Vec::new();
    segs.push(Vec::new());
    let mut i: usize = 0;
    proof {
        assert(s@.subrange(0, 0) =~= Seq::<char>::empty());
    }
    while i < s.len()
        invariant
            i <= s@.len(),
            segs@.len() == split_commas(s@.subrange(0, i as int)).len(),
            segs@.len() >= 1,
            forall|j: int| 0 <= j < segs@.len() ==> (#[trigger] segs@[j])@ == split_commas(s@.subrange(0, i as int))[j],
        decreases s@.len() - i,
    {
        let c = s[i];
        let ghost prev = s@.subrange(0, i as int);
        let ghost next = s@.subrange(0, i + 1);
        proof {
            assert(next.drop_last() =~= prev);
            assert(next.last() == c);
        }
        let ghost before = segs@;
        if c == ',' {
            segs.push(Vec::new());
            proof {
                assert(split_commas(next) == split_commas(prev).push(Seq::empty()));
                assert forall|j: int| 0 <= j < segs@.len() implies (#[trigger] segs@[j])@ == split_commas(next)[j] by {
                    if j < segs@.len() - 1 {
                        assert(segs@[j] == before[j]);
                    }
                }
            }
        } else {
            let n = segs.len();
            segs[n - 1].push(c);
            proof {
                let r = split_commas(prev);
                assert(split_commas(next) == r.update(r.len() - 1, r.last().push(c)));
                assert forall|j: int| 0 <= j < segs@.len() implies (#[trigger] segs@[j])@ == split_commas(next)[j] by {
                    if j < n - 1 {
                        assert(segs@[j] == before[j]);
                    } else {
                        assert(segs@[j]@ =~= before[j]@.push(c));
                    }
                }
            }
        }
        i = i + 1;
    }
    proof {
        assert(s@.subrange(0, s@.len() as int) =~= s@);
    }
    segs
}

/// The characters of `s` with leading and trailing white space removed.
pub fn trim_exec(s: &Vec<char>) -> (r: String)
    ensures
        r@ == trim(s@),
{
    let n = s.len();
    let mut lo: usize = 0;
    proof {
        assert(s@.subrange(0, n as int) =~= s@);
    }
    while lo < n && is_space(s[lo])
        invariant
            lo <= n,
            n == s@.len(),
            trim_start(s@) == trim_start(s@.subrange(lo as int, n as int)),
        decreases n - lo,
    {
        proof {
            let u = s@.subrange(lo as int, n as int);
            assert(u[0] == s@[lo as int]);
            assert(u.drop_first() =~= s@.subrange(lo + 1, n as int));
        }
        lo = lo + 1;
    }
    proof {
        let u = s@.subrange(lo as int, n as int);
        if lo < n {
            assert(u[0] == s@[lo as int]);
        }
    }
    let mut hi: usize = n;
    while hi > lo && is_space(s[hi - 1])
        invariant
            lo <= hi <= n,
            n == s@.len(),
            trim_start(s@) == s@.subrange(lo as int, n as int),
            trim(s@) == trim_end(s@.subrange(lo as int, hi as int)),
        decreases hi,
    {
        proof {
            let u = s@.subrange(lo as int, hi as int);
            assert(u.last() == s@[hi - 1]);
            assert(u.drop_last() =~= s@.subrange(lo as int, hi - 1));
        }
        hi = hi - 1;
    }
    proof {
        let u = s@.subrange(lo as int, hi as int);
        if hi > lo {
            assert(u.last() == s@[hi - 1]);
        }
    }
    string_of(&s.as_slice()[lo..hi])
}

/// The (substance, product) pair that a facet path names, if it has at
/// least three levels.
pub fn parse_facet(value: &str) -> (r: Option<(String, String)>)
    ensures
        r matches Some(p) ==> parse_facet_spec(value@) == Some((p.0@, p.1@)),
        r is None ==> parse_facet_spec(value@) is None,
{
    let chars = chars_of(value);
    let segs = split_commas_exec(&chars);
    if segs.len() < 3 {
        None
    } else {
        let substance = trim_exec(&segs[1]);
        let product = trim_exec(&segs[2]);
        Some((substance, product))
    }
}

} // verus!
