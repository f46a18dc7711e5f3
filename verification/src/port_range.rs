use vstd::prelude::*;
use vstd::string::StrSliceExecFns;

verus! {

/// A TCP port range, both bounds inclusive and both in `[1, 65535]`.
///
/// The textual validator deliberately does not compare the two bounds, so a
/// stored range may have `start > end`; such a range denotes an empty set of
/// ports (see `spec_ports`), never an error.
#[derive(Clone, Copy, Debug, PartialEq, Eq, Structural)]
pub struct PortRange {
    pub start: u16,
    pub end: u16,
}

impl PortRange {
    pub open spec fn wf(self) -> bool {
        1 <= self.start && 1 <= self.end
    }

    /// The ports this range denotes: `start..=end`, empty when `start > end`.
    pub open spec fn spec_ports(self) -> Seq<u16> {
        if self.start > self.end {
            Seq::empty()
        } else {
            Seq::new((self.end - self.start + 1) as nat, |i: int| (self.start + i) as u16)
        }
    }

    /// Expands the range into one work item per port, in ascending order.
    pub fn ports(&self) -> (r: Vec<u16>)
        ensures
            r@ == self.spec_ports(),
    {
        let mut r: Vec<u16> = Vec::new();
        if self.start > self.end {
            assert(r@ =~= self.spec_ports());
            return r;
        }
        let mut p: u32 = self.start as u32;
        while p <= self.end as u32
            invariant
                self.start <= self.end,
                self.start as int <= p as int <= self.end as int + 1,
                r@ == self.spec_ports().subrange(0, p - self.start),
            decreases self.end as int + 1 - p as int,
        {
            r.push(p as u16);
            proof {
                assert(r@ =~= self.spec_ports().subrange(0, p + 1 - self.start));
            }
            p = p + 1;
        }
        proof {
            assert(r@ =~= self.spec_ports());
        }
        r
    }
}

pub open spec fn is_digit(c: char) -> bool {
    '0' <= c && c <= '9'
}

pub open spec fn digit_val(c: char) -> int {
    c as int - '0' as int
}

pub open spec fn all_digits(s: Seq<char>) -> bool {
    forall|i: int| 0 <= i < s.len() ==> is_digit(#[trigger] s[i])
}

/// The numeric value of a digit string, most significant digit first.
pub open spec fn text_val(s: Seq<char>) -> int
    decreases s.len(),
{
    if s.len() == 0 {
        0
    } else {
        text_val(s.drop_last()) * 10 + digit_val(s.last())
    }
}

/// One textual bound of a range: decimal digits only, no leading zero, value
/// in `[1, 65535]`.
pub open spec fn is_port_text(s: Seq<char>) -> bool {
    &&& s.len() >= 1
    &&& all_digits(s)
    &&& s[0] != '0'
    &&& 1 <= text_val(s) <= 65535
}

/// The accepted shape of a port-range string: `"<start>-<end>"` with each
/// bound independently a port number. Textual check only: it does not
/// require `start <= end`.
pub open spec fn port_range_text_valid(s: Seq<char>) -> bool {
    exists|k: int|
        0 <= k < s.len() && #[trigger] s[k] == '-' && is_port_text(s.subrange(0, k))
            && is_port_text(s.subrange(k + 1, s.len() as int))
}

pub open spec fn pow10(n: nat) -> int
    decreases n,
{
    if n == 0 {
        1
    } else {
        10 * pow10((n - 1) as nat)
    }
}

proof fn lemma_text_val_lower(s: Seq<char>)
    requires
        all_digits(s),
        s.len() >= 1,
        s[0] != '0',
    ensures
        text_val(s) >= pow10((s.len() - 1) as nat),
    decreases s.len(),
{
    if s.len() == 1 {
        assert(is_digit(s[0]));
        assert(s.drop_last().len() == 0);
        assert(text_val(s.drop_last()) == 0);
        assert(s.last() == s[0]);
        assert(digit_val(s[0]) >= 1);
        assert(text_val(s) == digit_val(s[0]));
    } else {
        let dl = s.drop_last();
        assert(all_digits(dl)) by {
            assert(forall|i: int| 0 <= i < s.len() - 1 ==> #[trigger] dl[i] == s[i]);
        }
        assert(dl[0] == s[0]);
        lemma_text_val_lower(dl);
        assert(is_digit(s.last()));
        assert(digit_val(s.last()) >= 0);
        let p = pow10((dl.len() - 1) as nat);
        assert(pow10((s.len() - 1) as nat) == 10 * p);
        assert(text_val(dl) * 10 >= p * 10);
        assert(text_val(s) == text_val(dl) * 10 + digit_val(s.last()));
    }
}

/// Parses the character span `[from, to)` of `s` as one textual bound.
/// Returns the bound's value exactly when the span is a valid port text.
fn parse_bound(s: &str, from: usize, to: usize) -> (r: Option<u16>)
    requires
        from <= to <= s@.len(),
    ensures
        r is Some <==> is_port_text(s@.subrange(from as int, to as int)),
        r matches Some(v) ==> v as int == text_val(s@.subrange(from as int, to as int)),
{
    let ghost span = s@.subrange(from as int, to as int);
    if to - from == 0 {
        return None;
    }
    if to - from > 5 {
        proof {
            if is_port_text(span) {
                lemma_text_val_lower(span);
                assert(pow10((span.len() - 1) as nat) >= pow10(5)) by {
                    lemma_pow10_increases(5nat, (span.len() - 1) as nat);
                }
                assert(pow10(5) == 100000) by {
                    reveal_with_fuel(pow10, 6);
                }
            }
        }
        return None;
    }
    if s.get_char(from) == '0' {
        assert(span[0] == '0');
        return None;
    }
    let mut acc: u32 = 0;
    let mut i: usize = from;
    while i < to
        invariant
            from <= i <= to <= s@.len(),
            to - from <= 5,
            all_digits(s@.subrange(from as int, i as int)),
            acc as int == text_val(s@.subrange(from as int, i as int)),
            acc < pow10((i - from) as nat),
        decreases to - i,
    {
        let c = s.get_char(i);
        let cv = c as u32;
        if cv < 48 || cv > 57 {
            proof {
                let sp = s@.subrange(from as int, to as int);
                let idx = i as int - from as int;
                assert(0 <= idx < sp.len());
                assert(sp[idx] == s@[from as int + idx]);
                assert(sp[idx] == c);
                assert(!is_digit(c));
                assert(!all_digits(sp));
            }
            return None;
        }
        proof {
            assert(s@.subrange(from as int, i + 1 as int).drop_last() =~= s@.subrange(
                from as int,
                i as int,
            ));
            assert(s@.subrange(from as int, i + 1 as int).last() == s@[i as int]);
            assert(pow10(((i + 1) - from) as nat) == 10 * pow10((i - from) as nat));
            assert(pow10((i - from) as nat) <= pow10(4)) by {
                lemma_pow10_increases((i - from) as nat, 4nat);
            }
            assert(pow10(4) == 10000) by {
                reveal_with_fuel(pow10, 5);
            }
        }
        acc = acc * 10 + (cv - 48);
        i = i + 1;
    }
    proof {
        assert(s@.subrange(from as int, to as int) =~= span);
        assert(span[0] == s@[from as int]);
        assert(pow10(5) == 100000) by {
            reveal_with_fuel(pow10, 6);
        }
    }
    if acc >= 1 && acc <= 65535 {
        Some(acc as u16)
    } else {
        None
    }
}

proof fn lemma_pow10_increases(a: nat, b: nat)
    requires
        a <= b,
    ensures
        1 <= pow10(a) <= pow10(b),
    decreases b,
{
    if b > 0 {
        if a == b {
            lemma_pow10_increases((a - 1) as nat, (b - 1) as nat);
        } else {
            lemma_pow10_increases(a, (b - 1) as nat);
        }
    }
}

/// Parses a `"<start>-<end>"` string. Returns a range exactly when the string
/// matches the accepted shape; the stored bounds are the numeric values of
/// the two texts. An invalid string yields `None` and nothing else.
/// The range a valid port-range string denotes: the numeric values of the
/// two bound texts around the (unique) separating dash.
pub open spec fn range_of_text(s: Seq<char>) -> PortRange {
    let k = choose|k: int|
        0 <= k < s.len() && #[trigger] s[k] == '-' && is_port_text(s.subrange(0, k))
            && is_port_text(s.subrange(k + 1, s.len() as int));
    (PortRange {
        start: text_val(s.subrange(0, k)) as u16,
        end: text_val(s.subrange(k + 1, s.len() as int)) as u16,
    })
}

pub fn parse_port_range(s: &str) -> (r: Option<PortRange>)
    ensures
        r is Some <==> port_range_text_valid(s@),
        r matches Some(pr) ==> pr.wf() && pr == range_of_text(s@),
{
    let n = s.unicode_len();
    // find the first '-'
    let mut k: usize = 0;
    let mut found = false;
    while k < n && !found
        invariant
            0 <= k <= n == s@.len(),
            !found ==> forall|j: int| 0 <= j < k ==> s@[j] != '-',
            found ==> k < n && s@[k as int] == '-' && forall|j: int| 0 <= j < k ==> s@[j] != '-',
        decreases n - k + (if found { 0int } else { 1int }),
    {
        if s.get_char(k) == '-' {
            found = true;
        } else {
            k = k + 1;
        }
    }
    if !found {
        proof {
            if port_range_text_valid(s@) {
                let kk = choose|kk: int|
                    0 <= kk < s@.len() && #[trigger] s@[kk] == '-' && is_port_text(
                        s@.subrange(0, kk),
                    ) && is_port_text(s@.subrange(kk + 1, s@.len() as int));
                assert(s@[kk] != '-');
            }
        }
        return None;
    }
    let left = parse_bound(s, 0, k);
    let right = parse_bound(s, k + 1, n);
    proof {
        // the first '-' is the only split a valid string can have
        if port_range_text_valid(s@) {
            let kk = choose|kk: int|
                0 <= kk < s@.len() && #[trigger] s@[kk] == '-' && is_port_text(s@.subrange(0, kk))
                    && is_port_text(s@.subrange(kk + 1, s@.len() as int));
            if kk < k {
                assert(s@[kk] != '-');
            } else if kk > k {
                assert(s@.subrange(0, kk)[k as int] == s@[k as int]);
                assert(!is_digit('-'));
            }
            assert(kk == k);
        }
    }
    match (left, right) {
        (Some(a), Some(b)) => {
            proof {
                assert(s@[k as int] == '-');
                assert(port_range_text_valid(s@));
                let kk = choose|kk: int|
                    0 <= kk < s@.len() && #[trigger] s@[kk] == '-' && is_port_text(
                        s@.subrange(0, kk),
                    ) && is_port_text(s@.subrange(kk + 1, s@.len() as int));
                assert(kk == k);
                assert(range_of_text(s@) == (PortRange { start: a, end: b }));
            }
            Some(PortRange { start: a, end: b })
        },
        _ => None,
    }
}

}
