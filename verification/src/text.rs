use vstd::prelude::*;

verus! {

use vstd::string::StringSliceAdditionalSpecFns;

/// Equality of two ASCII string slices, decided by comparing their bytes.
pub(crate) fn ascii_str_eq(a: &str, b: &str) -> (r: bool)
    requires
        a.is_ascii(),
        b.is_ascii(),
    ensures
        r == (a@ == b@),
{
    proof {
        broadcast use vstd::string::is_ascii_spec_bytes;
    }
    let abytes = a.as_bytes();
    let bbytes = b.as_bytes();
    if abytes.len() != bbytes.len() {
        return false;
    }
    let n = abytes.len();
    let mut i: usize = 0;
    while i < n
        invariant
            i <= n,
            n == abytes@.len() && n == bbytes@.len(),
            abytes@ == a.spec_bytes(),
            bbytes@ == b.spec_bytes(),
            a.is_ascii(),
            b.is_ascii(),
            a@.len() == n && b@.len() == n,
            forall|j: int| 0 <= j < a@.len() ==> a@[j] as u8 == abytes@[j],
            forall|j: int| 0 <= j < b@.len() ==> b@[j] as u8 == bbytes@[j],
            forall|j: int| 0 <= j < i ==> a@[j] == b@[j],
        decreases n - i,
    {
        if abytes[i] != bbytes[i] {
            proof {
                assert(a@[i as int] as u8 != b@[i as int] as u8);
            }
            return false;
        }
        proof {
            let ca = a@[i as int];
            let cb = b@[i as int];
            assert(ca as u8 == cb as u8);
            assert(ca <= '\u{7f}' && cb <= '\u{7f}');
            let ua: u32 = ca as u32;
            let ub: u32 = cb as u32;
            assert(ua < 128 && ub < 128);
            assert(ua as u8 == ca as u8 && ub as u8 == cb as u8);
            assert(ua == ub);
            vstd::utf8::char_u32_cast(ca, ua);
            vstd::utf8::char_u32_cast(cb, ub);
            assert(ca == cb);
        }
        i += 1;
    }
    proof {
        assert(a@ =~= b@);
    }
    true
}

} // verus!
