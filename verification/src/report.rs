use vstd::prelude::*;
use vstd::string::StringExecFns;

use crate::aggregator::ScanRecord;

verus! {

pub open spec fn char_of_digit(d: int) -> char {
    if d == 0 {
        '0'
    } else if d == 1 {
        '1'
    } else if d == 2 {
        '2'
    } else if d == 3 {
        '3'
    } else if d == 4 {
        '4'
    } else if d == 5 {
        '5'
    } else if d == 6 {
        '6'
    } else if d == 7 {
        '7'
    } else if d == 8 {
        '8'
    } else {
        '9'
    }
}

/// The decimal text of a non-negative number: most significant digit first,
/// no leading zero (`0` itself renders as one digit).
pub open spec fn dec_chars(v: int) -> Seq<char>
    decreases v,
{
    if v < 10 {
        seq![char_of_digit(v)]
    } else {
        dec_chars(v / 10).push(char_of_digit(v % 10))
    }
}

fn append_digit(s: &mut String, d: u16)
    requires
        d < 10,
    ensures
        final(s)@ == old(s)@ + seq![char_of_digit(d as int)],
{
    if d == 0 {
        s.append("0");
        proof {
            reveal_strlit("0");
            assert(s@ =~= old(s)@ + seq![char_of_digit(d as int)]);
        }
    } else if d == 1 {
        s.append("1");
        proof {
            reveal_strlit("1");
            assert(s@ =~= old(s)@ + seq![char_of_digit(d as int)]);
        }
    } else if d == 2 {
        s.append("2");
        proof {
            reveal_strlit("2");
            assert(s@ =~= old(s)@ + seq![char_of_digit(d as int)]);
        }
    } else if d == 3 {
        s.append("3");
        proof {
            reveal_strlit("3");
            assert(s@ =~= old(s)@ + seq![char_of_digit(d as int)]);
        }
    } else if d == 4 {
        s.append("4");
        proof {
            reveal_strlit("4");
            assert(s@ =~= old(s)@ + seq![char_of_digit(d as int)]);
        }
    } else if d == 5 {
        s.append("5");
        proof {
            reveal_strlit("5");
            assert(s@ =~= old(s)@ + seq![char_of_digit(d as int)]);
        }
    } else if d == 6 {
        s.append("6");
        proof {
            reveal_strlit("6");
            assert(s@ =~= old(s)@ + seq![char_of_digit(d as int)]);
        }
    } else if d == 7 {
        s.append("7");
        proof {
            reveal_strlit("7");
            assert(s@ =~= old(s)@ + seq![char_of_digit(d as int)]);
        }
    } else if d == 8 {
        s.append("8");
        proof {
            reveal_strlit("8");
            assert(s@ =~= old(s)@ + seq![char_of_digit(d as int)]);
        }
    } else {
        s.append("9");
        proof {
            reveal_strlit("9");
            assert(s@ =~= old(s)@ + seq![char_of_digit(d as int)]);
        }
    }
}

/// Renders a port number as decimal text, exactly `dec_chars` of it.
pub fn to_decimal(v: u16) -> (r: String)
    ensures
        r@ == dec_chars(v as int),
    decreases v,
{
    if v < 10 {
        let mut s = String::new();
        append_digit(&mut s, v);
        proof {
            assert(s@ =~= dec_chars(v as int));
        }
        s
    } else {
        let mut s = to_decimal(v / 10);
        append_digit(&mut s, v % 10);
        proof {
            assert(s@ =~= dec_chars(v as int));
        }
        s
    }
}

/// The ports' part of one report line: each port's decimal text followed by
/// `", "` — the original's trailing separator before the closing bracket is
/// kept as it was.
pub open spec fn ports_text(ports: Seq<u16>) -> Seq<char>
    decreases ports.len(),
{
    if ports.len() == 0 {
        Seq::empty()
    } else {
        ports_text(ports.drop_last()) + dec_chars(ports.last() as int) + ", "@
    }
}

/// One line of the scan report: `<subject>, [<port>, <port>, ]`.
pub open spec fn spec_scan_line(subject: Seq<char>, ports: Seq<u16>) -> Seq<char> {
    subject + ", ["@ + ports_text(ports) + "]"@
}

/// Renders one subject's record as its report line; the report writer only
/// joins these with newlines.
pub fn format_scan_line(record: &ScanRecord) -> (r: String)
    ensures
        r@ == spec_scan_line(record.subject@, record.positives@),
{
    let mut s = record.subject.clone();
    s.append(", [");
    let n = record.positives.len();
    let mut i: usize = 0;
    proof {
        assert(ports_text(record.positives@.take(0)) =~= Seq::<char>::empty());
        assert(s@ =~= record.subject@ + ", ["@ + ports_text(record.positives@.take(0)));
    }
    while i < n
        invariant
            0 <= i <= n,
            n == record.positives@.len(),
            s@ == record.subject@ + ", ["@ + ports_text(record.positives@.take(i as int)),
        decreases n - i,
    {
        let d = to_decimal(record.positives[i]);
        s.append(d.as_str());
        s.append(", ");
        proof {
            assert(record.positives@.take(i + 1).drop_last() =~= record.positives@.take(i as int));
            assert(record.positives@.take(i + 1).last() == record.positives@[i as int]);
            assert(s@ =~= record.subject@ + ", ["@ + ports_text(record.positives@.take(i + 1)));
        }
        i = i + 1;
    }
    s.append("]");
    proof {
        assert(record.positives@.take(n as int) =~= record.positives@);
        assert(s@ =~= spec_scan_line(record.subject@, record.positives@));
    }
    s
}

}
