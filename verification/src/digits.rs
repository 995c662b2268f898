//! Writing numbers out in digits.

use vstd::prelude::*;
use vstd::string::StringExecFns;

verus! {

/// The character for a digit.
pub open spec fn digit_char(d: nat) -> char {
    if d == 0 {
        '0'
    } else if d == 1 {
        '1'
    } else if d == 2 {
        '2'
    } else if d == 3 {
        '3'
    } else if d == 4 {
        '4'
    } else if d == 5 {
        '5'
    } else if d == 6 {
        '6'
    } else if d == 7 {
        '7'
    } else if d == 8 {
        '8'
    } else {
        '9'
    }
}

/// A number written in decimal digits, without zeros at the front.
pub open spec fn decimal_digits(n: nat) -> Seq<char>
    decreases n,
{
    if n < 10 {
        seq![digit_char(n)]
    } else {
        decimal_digits(n / 10).push(digit_char(n % 10))
    }
}

fn digit_text(d: u8) -> (out: &'static str)
    requires
        d < 10,
    ensures
        out@ == seq![digit_char(d as nat)],
{
    proof {
        reveal_strlit("0");
        reveal_strlit("1");
        reveal_strlit("2");
        reveal_strlit("3");
        reveal_strlit("4");
        reveal_strlit("5");
        reveal_strlit("6");
        reveal_strlit("7");
        reveal_strlit("8");
        reveal_strlit("9");
    }
    let out = match d {
        0 => "0",
        1 => "1",
        2 => "2",
        3 => "3",
        4 => "4",
        5 => "5",
        6 => "6",
        7 => "7",
        8 => "8",
        _ => "9",
    };
    assert(out@ =~= seq![digit_char(d as nat)]);
    out
}

/// `n` written in decimal digits.
pub fn decimal_text(n: u8) -> (out: String)
    ensures
        out@ == decimal_digits(n as nat),
{
    let mut out = String::new();
    if n >= 100 {
        out.append(digit_text(n / 100));
    }
    if n >= 10 {
        out.append(digit_text(n / 10 % 10));
    }
    out.append(digit_text(n % 10));
    proof {
        reveal_with_fuel(decimal_digits, 3);
        assert(out@ =~= decimal_digits(n as nat));
    }
    out
}


/// The character for a digit to the base 16, letters in lower case.
pub open spec fn hex_char(d: nat) -> char {
    if d < 10 {
        digit_char(d)
    } else if d == 10 {
        'a'
    } else if d == 11 {
        'b'
    } else if d == 12 {
        'c'
    } else if d == 13 {
        'd'
    } else if d == 14 {
        'e'
    } else {
        'f'
    }
}

/// The last `count` digits of a number to the base 16, the highest first.
pub open spec fn hex_digits(n: nat, count: nat) -> Seq<char>
    decreases count,
{
    if count == 0 {
        Seq::empty()
    } else {
        hex_digits(n / 16, (count - 1) as nat).push(hex_char(n % 16))
    }
}

/// An identifier of 128 bits as it is written: 32 digits to the base 16 in
/// groups of 8, 4, 4, 4 and 12 with hyphens between them.
pub open spec fn hyphenated(id: u128) -> Seq<char> {
    let d = hex_digits(id as nat, 32);
    d.subrange(0, 8) + seq!['-'] + d.subrange(8, 12) + seq!['-'] + d.subrange(12, 16) + seq!['-']
        + d.subrange(16, 20) + seq!['-'] + d.subrange(20, 32)
}

fn hex_text(d: u8) -> (out: &'static str)
    requires
        d < 16,
    ensures
        out@ == seq![hex_char(d as nat)],
{
    if d < 10 {
        digit_text(d)
    } else {
        proof {
            reveal_strlit("a");
            reveal_strlit("b");
            reveal_strlit("c");
            reveal_strlit("d");
            reveal_strlit("e");
            reveal_strlit("f");
        }
        let out = match d {
            10 => "a",
            11 => "b",
            12 => "c",
            13 => "d",
            14 => "e",
            _ => "f",
        };
        assert(out@ =~= seq![hex_char(d as nat)]);
        out
    }
}

/// The characters for digits given from the lowest to the highest, the
/// highest first.
pub open spec fn written(low: Seq<u8>) -> Seq<char> {
    Seq::new(low.len(), |k: int| hex_char(low[low.len() - 1 - k] as nat))
}

/// The last `count` digits of `n` to the base 16, the lowest first.
fn low_digits(n: u128, count: usize) -> (out: Vec<u8>)
    ensures
        out.len() == count,
        forall|k: int| 0 <= k < count ==> out@[k] < 16,
        hex_digits(n as nat, count as nat) == written(out@),
{
    let mut out: Vec<u8> = Vec::new();
    let mut rest: u128 = n;
    let ghost mut rests: Seq<nat> = seq![n as nat];
    while out.len() < count
        invariant
            out.len() <= count,
            rests.len() == out.len() + 1,
            rests[0] == n,
            rests[out.len() as int] == rest,
            forall|k: int|
                0 <= k < out.len() ==> (#[trigger] out@[k]) < 16 && out@[k] == rests[k] % 16
                    && rests[k + 1] == rests[k] / 16,
        decreases count - out.len(),
    {
        let ghost before = out@;
        let ghost rests_before = rests;
        out.push((rest % 16) as u8);
        rest = rest / 16;
        proof {
            rests = rests.push(rest as nat);
            assert forall|k: int| 0 <= k < out.len() implies (#[trigger] out@[k]) < 16 && out@[k]
                == rests[k] % 16 && rests[k + 1] == rests[k] / 16 by {
                if k < before.len() {
                    assert(out@[k] == before[k]);
                    assert(rests[k] == rests_before[k]);
                    assert(rests[k + 1] == rests_before[k + 1]);
                }
            }
        }
    }
    proof {
        let low = out@;
        assert forall|k: int| 0 <= k < low.len() implies (#[trigger] low[k]) == rests[k] % 16
            && rests[k + 1] == rests[k] / 16 by {
            assert(out@[k] < 16);
        }
        lemma_hex_digits(rests, low, 0, count as nat);
        assert(low.subrange(0, count as int) =~= low);
    }
    out
}

/// The digits counted off one by one from the low end are the digits.
proof fn lemma_hex_digits(rests: Seq<nat>, low: Seq<u8>, from: int, count: nat)
    requires
        0 <= from,
        from + count <= low.len(),
        rests.len() == low.len() + 1,
        forall|k: int|
            0 <= k < low.len() ==> (#[trigger] low[k]) == rests[k] % 16 && rests[k + 1] == rests[k]
                / 16,
    ensures
        hex_digits(rests[from], count) == written(
            low.subrange(from, from + count),
        ),
    decreases count,
{
    let want = written(low.subrange(from, from + count));
    if count == 0 {
        assert(hex_digits(rests[from], count) =~= want);
    } else {
        lemma_hex_digits(rests, low, from + 1, (count - 1) as nat);
        let front = written(low.subrange(from + 1, from + count));
        assert(low[from] == rests[from] % 16 && rests[from + 1] == rests[from] / 16);
        assert(hex_digits(rests[from], count) == hex_digits(
            rests[from + 1],
            (count - 1) as nat,
        ).push(hex_char(rests[from] % 16)));
        assert(front.push(hex_char(low[from] as nat)) =~= want);
    }
}

/// Writes the digits at places `from` up to `to`, counted from the highest.
fn append_digits(out: &mut String, low: &Vec<u8>, from: usize, to: usize)
    requires
        from <= to <= low.len(),
        forall|k: int| 0 <= k < low.len() ==> low@[k] < 16,
    ensures
        final(out)@ == old(out)@ + written(low@).subrange(from as int, to as int),
{
    let ghost start = out@;
    let mut k: usize = from;
    proof {
        assert(written(low@).subrange(from as int, from as int) =~= Seq::empty());
        assert(start + Seq::<char>::empty() =~= start);
    }
    while k < to
        invariant
            from <= k <= to <= low.len(),
            forall|j: int| 0 <= j < low.len() ==> low@[j] < 16,
            out@ == start + written(low@).subrange(from as int, k as int),
        decreases to - k,
    {
        out.append(hex_text(low[low.len() - 1 - k]));
        proof {
            let w = written(low@);
            assert(w.subrange(from as int, k + 1) =~= w.subrange(from as int, k as int).push(
                w[k as int],
            ));
            assert(out@ =~= start + w.subrange(from as int, k + 1));
        }
        k += 1;
    }
}

/// `id` as it is written.
pub fn id_text(id: u128) -> (out: String)
    ensures
        out@ == hyphenated(id),
{
    let low = low_digits(id, 32);
    let mut out = String::new();
    proof {
        reveal_strlit("-");
        assert("-"@ =~= seq!['-']);
    }
    append_digits(&mut out, &low, 0, 8);
    out.append("-");
    append_digits(&mut out, &low, 8, 12);
    out.append("-");
    append_digits(&mut out, &low, 12, 16);
    out.append("-");
    append_digits(&mut out, &low, 16, 20);
    out.append("-");
    append_digits(&mut out, &low, 20, 32);
    proof {
        assert(out@ =~= hyphenated(id));
    }
    out
}

} // verus!
