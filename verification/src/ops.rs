//! Resolving a ranking-criterion name. The user may abbreviate any of the
//! eight criteria to a unique, case-insensitive prefix of at least two
//! characters; an ambiguous or unknown prefix resolves to nothing.
use vstd::prelude::*;

use vstd::string::StrSliceExecFns;

verus! {

/// The code point of `c` with an ASCII capital letter taken to its
/// lower-case form; every other character is left as it is.
pub open spec fn lower_code(c: char) -> int {
    if 65 <= c as int && c as int <= 90 {
        c as int + 32
    } else {
        c as int
    }
}

/// The ASCII-lowercased `q` is a prefix of `v`.
pub open spec fn ci_prefix_of(q: Seq<char>, v: Seq<char>) -> bool {
    q.len() <= v.len() && (forall|i: int|
        0 <= i < q.len() ==> lower_code(q[i]) == (#[trigger] v[i]) as int)
}

/// The eight ranking criteria, in the order they are tried.
pub open spec fn op_values() -> Seq<Seq<char>> {
    seq![
        "newest-modified"@,
        "newest-created"@,
        "newest-accessed"@,
        "largest"@,
        "oldest-modified"@,
        "oldest-created"@,
        "oldest-accessed"@,
        "smallest"@,
    ]
}

/// `q` abbreviates the criterion at index `i`.
pub open spec fn op_hit(q: Seq<char>, i: int) -> bool {
    0 <= i < op_values().len() && ci_prefix_of(q, op_values()[i])
}

/// `q` abbreviates exactly one criterion.
pub open spec fn unique_hit(q: Seq<char>) -> bool {
    exists|i: int| op_hit(q, i) && (forall|j: int| op_hit(q, j) ==> j == i)
}

/// The criterion that `q` names: the unique one it abbreviates, if it is
/// at least two characters long and abbreviates exactly one.
pub open spec fn spec_match_op(q: Seq<char>) -> Option<Seq<char>> {
    if q.len() < 2 {
        None
    } else if unique_hit(q) {
        Some(
            op_values()[choose|i: int| op_hit(q, i) && (forall|j: int| op_hit(q, j) ==> j == i)],
        )
    } else {
        None
    }
}

/// The lower-cased code point of `c`, at run time.
fn char_lower_code(c: char) -> (r: u32)
    ensures
        r as int == lower_code(c),
{
    let u = c as u32;
    if 65 <= u && u <= 90 {
        u + 32
    } else {
        u
    }
}

/// Whether the ASCII-lowercased `q` is a prefix of `v`.
fn ci_prefix(q: &str, v: &str) -> (r: bool)
    ensures
        r == ci_prefix_of(q@, v@),
{
    let qn = q.unicode_len();
    let vn = v.unicode_len();
    if qn > vn {
        return false;
    }
    let mut i: usize = 0;
    while i < qn
        invariant
            0 <= i <= qn,
            qn == q@.len(),
            vn == v@.len(),
            qn <= vn,
            forall|j: int| 0 <= j < i ==> lower_code(q@[j]) == (#[trigger] v@[j]) as int,
        decreases qn - i,
    {
        let qc = char_lower_code(q.get_char(i));
        let vc = v.get_char(i) as u32;
        if qc != vc {
            assert(lower_code(q@[i as int]) != v@[i as int] as int);
            return false;
        }
        i += 1;
    }
    true
}

/// Resolves a criterion name given on the command line. For user safety
/// nothing shorter than two characters is matched; an abbreviation kept
/// by more than one criterion resolves to nothing rather than guessing.
pub fn match_op(s: &str) -> (r: Option<&'static str>)
    ensures
        (r is Some) == (spec_match_op(s@) is Some),
        r matches Some(v) ==> spec_match_op(s@) == Some(v@),
{
    let n = s.unicode_len();
    if n < 2 {
        return None;
    }
    let values: Vec<&'static str> = vec![
        "newest-modified",
        "newest-created",
        "newest-accessed",
        "largest",
        "oldest-modified",
        "oldest-created",
        "oldest-accessed",
        "smallest",
    ];
    proof {
        assert(values@[0]@ == op_values()[0]);
        assert(values@[1]@ == op_values()[1]);
        assert(values@[2]@ == op_values()[2]);
        assert(values@[3]@ == op_values()[3]);
        assert(values@[4]@ == op_values()[4]);
        assert(values@[5]@ == op_values()[5]);
        assert(values@[6]@ == op_values()[6]);
        assert(values@[7]@ == op_values()[7]);
    }
    let mut ret: Option<&'static str> = None;
    let ghost mut hit: int = 0int;
    let mut k: usize = 0;
    while k < 8
        invariant
            0 <= k <= 8,
            values@.len() == 8,
            forall|i: int| 0 <= i < 8 ==> (#[trigger] values@[i])@ == op_values()[i],
            n == s@.len(),
            n >= 2,
            ret is None ==> (forall|j: int| 0 <= j < k ==> !op_hit(s@, j)),
            ret matches Some(v) ==> 0 <= hit < k && op_hit(s@, hit) && v@ == op_values()[hit] && (
            forall|j: int| 0 <= j < k && op_hit(s@, j) ==> j == hit),
        decreases 8 - k,
    {
        if ci_prefix(s, values[k]) {
            if ret.is_some() {
                proof {
                    assert(op_hit(s@, hit));
                    assert(op_hit(s@, k as int));
                    assert(!unique_hit(s@));
                }
                return None;
            }
            ret = Some(values[k]);
            proof {
                hit = k as int;
            }
        }
        k += 1;
    }
    proof {
        if ret is Some {
            assert(op_hit(s@, hit) && (forall|j: int| op_hit(s@, j) ==> j == hit));
            assert(unique_hit(s@));
            let c = choose|i: int| op_hit(s@, i) && (forall|j: int| op_hit(s@, j) ==> j == i);
            assert(c == hit);
        } else {
            assert(forall|j: int| !op_hit(s@, j));
            assert(!unique_hit(s@));
        }
    }
    ret
}

} // verus!
