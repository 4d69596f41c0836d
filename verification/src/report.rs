use vstd::prelude::*;

verus! {

/// One file's remap table folded into the running report: each pair is
/// appended once, pairs already reported are not repeated.
pub open spec fn merge_pairs(report: Seq<(u32, u32)>, table: Seq<(u32, u32)>) -> Seq<(u32, u32)>
    decreases table,
{
    if table.len() == 0 {
        report
    } else {
        let r1 = (if report.contains(table[0]) {
            report
        } else {
            report.push(table[0])
        });
        merge_pairs(r1, table.drop_first())
    }
}

/// Whether the report already holds a pair.
#[verifier::loop_isolation(false)]
fn pair_in(report: &Vec<(u32, u32)>, p: (u32, u32)) -> (r: bool)
    ensures
        r == report@.contains(p),
{
    let mut k: usize = 0;
    while k < report.len()
        invariant
            k <= report@.len(),
            forall|t: int| 0 <= t < k ==> report@[t] != p,
        decreases report@.len() - k,
    {
        if report[k].0 == p.0 && report[k].1 == p.1 {
            assert(report@[k as int] == p);
            return true;
        }
        k = k + 1;
    }
    false
}

/// Folds one file's remap table into the aggregated report, deduplicating
/// by whole pair and keeping first-appearance order.
#[verifier::loop_isolation(false)]
pub fn merge_into(report: &mut Vec<(u32, u32)>, table: &Vec<(u32, u32)>)
    ensures
        final(report)@ == merge_pairs(old(report)@, table@),
{
    proof {
        assert(table@.skip(0) =~= table@);
    }
    let mut k: usize = 0;
    while k < table.len()
        invariant
            k <= table@.len(),
            merge_pairs(old(report)@, table@) == merge_pairs(report@, table@.skip(k as int)),
        decreases table@.len() - k,
    {
        proof {
            assert(table@.skip(k as int)[0] == table@[k as int]);
            assert(table@.skip(k as int).drop_first() =~= table@.skip(k + 1 as int));
        }
        let p: (u32, u32) = (table[k].0, table[k].1);
        proof {
            assert(p == table@[k as int]);
        }
        if !pair_in(report, p) {
            report.push(p);
        }
        k = k + 1;
    }
    proof {
        assert(table@.skip(table@.len() as int).len() == 0);
    }
}

/// One hexadecimal digit, lower case.
pub open spec fn hex_digit(d: u32) -> u8 {
    if d < 10 {
        (48 + d) as u8
    } else {
        (87 + d) as u8
    }
}

/// The hexadecimal digits of a value, most significant first, with no
/// leading zeroes beyond the value's own.
pub open spec fn hex_digits(x: u32) -> Seq<u8>
    decreases x,
{
    if x < 16 {
        seq![hex_digit(x)]
    } else {
        hex_digits(x / 16).push(hex_digit(x % 16))
    }
}

/// A value's hexadecimal form, padded to at least two digits.
pub open spec fn hex2(x: u32) -> Seq<u8> {
    if x < 16 {
        seq![48u8] + hex_digits(x)
    } else {
        hex_digits(x)
    }
}

/// One line of the report: the old and new identifier, each as "0x" and
/// at least two lower-case hexadecimal digits, joined by an arrow.
pub open spec fn pair_line(old_id: u32, new_id: u32) -> Seq<u8> {
    seq![48u8, 120u8] + hex2(old_id) + seq![32u8, 61u8, 62u8, 32u8, 48u8, 120u8] + hex2(new_id)
}

fn push_hex_digits(out: &mut Vec<u8>, x: u32)
    ensures
        final(out)@ == old(out)@ + hex_digits(x),
    decreases x,
{
    if x < 16 {
        out.push(if x < 10 {
            (48 + x) as u8
        } else {
            (87 + x) as u8
        });
        assert(out@ =~= old(out)@ + hex_digits(x));
    } else {
        push_hex_digits(out, x / 16);
        let d: u32 = x % 16;
        out.push(if d < 10 {
            (48 + d) as u8
        } else {
            (87 + d) as u8
        });
        assert(out@ =~= old(out)@ + hex_digits(x));
    }
}

/// Renders one remap pair for display.
pub fn format_pair(old_id: u32, new_id: u32) -> (out: Vec<u8>)
    ensures
        out@ == pair_line(old_id, new_id),
{
    let mut out: Vec<u8> = Vec::new();
    out.push(48);
    out.push(120);
    if old_id < 16 {
        out.push(48);
    }
    push_hex_digits(&mut out, old_id);
    out.push(32);
    out.push(61);
    out.push(62);
    out.push(32);
    out.push(48);
    out.push(120);
    if new_id < 16 {
        out.push(48);
    }
    push_hex_digits(&mut out, new_id);
    assert(out@ =~= pair_line(old_id, new_id));
    out
}

} // verus!
