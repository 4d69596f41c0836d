use vstd::prelude::*;

verus! {

/// One step of scanning a comma-separated list of decimal 32-bit values:
/// `acc` holds the finished numbers, `cur` the digits read of the current
/// one, and `has` whether the current number has any digit yet. Strict:
/// every byte must be a digit or a separating comma, every number must
/// fit 32 bits, and the list must end in a number.
pub open spec fn refs_scan(s: Seq<u8>, i: int, acc: Seq<u32>, cur: u64, has: bool) -> Option<
    Seq<u32>,
>
    decreases s.len() - i,
{
    if i < 0 || i >= s.len() {
        if has {
            Some(acc.push(cur as u32))
        } else {
            None
        }
    } else {
        let b = s[i];
        if b == 44 {
            if has {
                refs_scan(s, i + 1, acc.push(cur as u32), 0, false)
            } else {
                None
            }
        } else if 48 <= b && b <= 57 {
            let c2 = cur * 10 + (b - 48);
            if c2 > u32::MAX || cur > u32::MAX {
                None
            } else {
                refs_scan(s, i + 1, acc, c2 as u64, true)
            }
        } else {
            None
        }
    }
}

/// The reference identifier set held in a comma-separated decimal text.
pub open spec fn parse_refs(s: Seq<u8>) -> Option<Seq<u32>> {
    refs_scan(s, 0, Seq::empty(), 0, false)
}

/// Reads the reference identifier set from its textual form: decimal
/// 32-bit values separated by single commas. Returns nothing exactly
/// where the text strays from that form.
#[verifier::loop_isolation(false)]
pub fn parse_ref_set(text: &Vec<u8>) -> (r: Option<Vec<u32>>)
    ensures
        (match r {
            Some(v) => parse_refs(text@) == Some(v@),
            None => parse_refs(text@) is None,
        }),
{
    let mut out: Vec<u32> = Vec::new();
    let mut cur: u64 = 0;
    let mut has: bool = false;
    let mut i: usize = 0;
    while i < text.len()
        invariant
            i <= text@.len(),
            cur <= u32::MAX,
            parse_refs(text@) == refs_scan(text@, i as int, out@, cur, has),
        decreases text@.len() - i,
    {
        let b: u8 = text[i];
        if b == 44 {
            if has == false {
                return None;
            }
            out.push(cur as u32);
            cur = 0;
            has = false;
        } else if 48 <= b && b <= 57 {
            let c2: u64 = cur * 10 + ((b - 48) as u64);
            if c2 > 0xFFFFFFFF {
                return None;
            }
            cur = c2;
            has = true;
        } else {
            return None;
        }
        i = i + 1;
    }
    if has == false {
        return None;
    }
    out.push(cur as u32);
    Some(out)
}

} // verus!
