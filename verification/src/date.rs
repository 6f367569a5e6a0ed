use vstd::prelude::*;

use crate::text::{
    all_digits, dec_str, dec_val, digit_val, lemma_dec_str_val, parse_u64, push_char, valid_u64,
};
use vstd::string::StringExecFns;

verus! {

/// A calendar date, held as plain numbers.
#[derive(Debug, Clone, Copy, PartialEq, Eq)]
pub struct Date {
    pub year: u32,
    pub month: u8,
    pub day: u8,
}

pub ghost struct DateGhost {
    pub year: int,
    pub month: int,
    pub day: int,
}

impl View for Date {
    type V = DateGhost;

    open spec fn view(&self) -> DateGhost {
        DateGhost { year: self.year as int, month: self.month as int, day: self.day as int }
    }
}

/// The dates the document grammar can carry: four-digit year, month and day
/// within their calendar bounds.
pub open spec fn date_wf(d: DateGhost) -> bool {
    0 <= d.year <= 9999 && 1 <= d.month <= 12 && 1 <= d.day <= 31
}

/// `n` rendered in decimal, left-padded with zeros to width `w`.
pub open spec fn padded_dec(n: nat, w: nat) -> Seq<char> {
    let raw = dec_str(n);
    if raw.len() >= w {
        raw
    } else {
        Seq::new((w - raw.len()) as nat, |i: int| '0') + raw
    }
}

/// The text of a date, `YYYY-MM-DD`.
pub open spec fn date_text(d: DateGhost) -> Seq<char> {
    padded_dec(d.year as nat, 4) + seq!['-'] + padded_dec(d.month as nat, 2) + seq!['-']
        + padded_dec(d.day as nat, 2)
}

/// The date a piece of text denotes, when it has the `YYYY-MM-DD` shape with
/// month and day within bounds.
pub open spec fn date_of_text(s: Seq<char>) -> Option<DateGhost> {
    if s.len() == 10 && s[4] == '-' && s[7] == '-' && valid_u64(s.take(4)) && valid_u64(
        s.subrange(5, 7),
    ) && valid_u64(s.subrange(8, 10)) {
        let y = dec_val(s.take(4)) as int;
        let m = dec_val(s.subrange(5, 7)) as int;
        let d = dec_val(s.subrange(8, 10)) as int;
        if y <= 9999 && 1 <= m <= 12 && 1 <= d <= 31 {
            Option::Some(DateGhost { year: y, month: m, day: d })
        } else {
            Option::None
        }
    } else {
        Option::None
    }
}

/// Prepending zeros leaves a numeral's value alone.
proof fn lemma_dec_val_zero_pad(z: Seq<char>, s: Seq<char>)
    requires
        forall|i: int| 0 <= i < z.len() ==> z[i] == '0',
    ensures
        dec_val(z + s) == dec_val(s),
        all_digits(s) && all_digits(z) ==> all_digits(z + s),
    decreases s.len(),
{
    assert(all_digits(z) ==> all_digits(z + s) || !all_digits(s)) by {
        if all_digits(s) && all_digits(z) {
            assert(forall|i: int| 0 <= i < (z + s).len() ==> is_digit_at(z, s, i));
        }
    }
    if s.len() == 0 {
        assert(z + s =~= z);
        lemma_dec_val_zeros(z);
    } else {
        assert((z + s).drop_last() =~= z + s.drop_last());
        assert((z + s).last() == s.last());
        lemma_dec_val_zero_pad(z, s.drop_last());
    }
}

/// Helper shape for the digit check over a concatenation.
pub open spec fn is_digit_at(z: Seq<char>, s: Seq<char>, i: int) -> bool {
    0 <= i < (z + s).len() ==> crate::text::is_digit((z + s)[i])
}

proof fn lemma_dec_val_zeros(z: Seq<char>)
    requires
        forall|i: int| 0 <= i < z.len() ==> z[i] == '0',
    ensures
        dec_val(z) == 0,
    decreases z.len(),
{
    if z.len() > 0 {
        assert(forall|i: int| 0 <= i < z.len() - 1 ==> z.drop_last()[i] == z[i]);
        lemma_dec_val_zeros(z.drop_last());
        assert(digit_val('0') == 0);
    }
}

/// `dec_str` needs no more digits than the padding width used here.
pub proof fn lemma_dec_str_len(n: nat)
    ensures
        n <= 9 ==> dec_str(n).len() == 1,
        n <= 99 ==> dec_str(n).len() <= 2,
        n <= 999 ==> dec_str(n).len() <= 3,
        n <= 9999 ==> dec_str(n).len() <= 4,
    decreases n,
{
    if n >= 10 {
        lemma_dec_str_len(n / 10);
    }
}

/// `n` as text, zero-padded to width `w`.
pub fn padded_u64_to_string(n: u64, w: usize) -> (r: String)
    ensures
        r@ == padded_dec(n as nat, w as nat),
{
    let raw = crate::text::u64_to_string(n);
    let mut s = String::new();
    let mut k: usize = raw.unicode_len();
    proof {
        lemma_dec_str_val(n as nat);
    }
    if k >= w {
        assert(s@ + raw@ =~= raw@);
        s.append(raw.as_str());
        assert(s@ =~= padded_dec(n as nat, w as nat));
        return s;
    }
    let pad = w - k;
    let mut i: usize = 0;
    #[verifier::loop_isolation(false)]
    while i < pad
        invariant
            i <= pad,
            s@ =~= Seq::new(i as nat, |j: int| '0'),
        decreases pad - i,
    {
        push_char(&mut s, '0');
        assert(s@ =~= Seq::new((i + 1) as nat, |j: int| '0'));
        i = i + 1;
    }
    s.append(raw.as_str());
    assert(s@ =~= padded_dec(n as nat, w as nat));
    s
}

impl Date {
    pub fn new(year: u32, month: u8, day: u8) -> (r: Date)
        ensures
            r@ == (DateGhost { year: year as int, month: month as int, day: day as int }),
    {
        Date { year, month, day }
    }

    /// The date as `YYYY-MM-DD` text.
    pub fn to_text(&self) -> (r: String)
        ensures
            r@ == date_text(self@),
    {
        let mut s = padded_u64_to_string(self.year as u64, 4);
        push_char(&mut s, '-');
        let m = padded_u64_to_string(self.month as u64, 2);
        s.append(m.as_str());
        push_char(&mut s, '-');
        let d = padded_u64_to_string(self.day as u64, 2);
        s.append(d.as_str());
        assert(s@ =~= date_text(self@));
        s
    }

    /// The date that the text denotes, when it has the accepted shape.
    pub fn of_text(w: &Vec<char>) -> (r: Option<Date>)
        ensures
            match r {
                Option::Some(d) => date_of_text(w@) == Option::Some(d@),
                Option::None => date_of_text(w@) is None,
            },
    {
        if w.len() != 10 {
            return Option::None;
        }
        if !(w[4] == '-' && w[7] == '-') {
            return Option::None;
        }
        let y = match parse_u64(w, 0, 4) {
            Option::Some(x) => x,
            Option::None => {
                assert(w@.subrange(0, 4) =~= w@.take(4));
                return Option::None;
            },
        };
        assert(w@.subrange(0, 4) =~= w@.take(4));
        let m = match parse_u64(w, 5, 7) {
            Option::Some(x) => x,
            Option::None => {
                return Option::None;
            },
        };
        let d = match parse_u64(w, 8, 10) {
            Option::Some(x) => x,
            Option::None => {
                return Option::None;
            },
        };
        if y <= 9999 && 1 <= m && m <= 12 && 1 <= d && d <= 31 {
            Option::Some(Date { year: y as u32, month: m as u8, day: d as u8 })
        } else {
            Option::None
        }
    }
}

/// Law: rendering a well-formed date and reading the text back yields the
/// same date.
pub proof fn lemma_date_text_round_trip(d: DateGhost)
    requires
        date_wf(d),
    ensures
        date_of_text(date_text(d)) == Option::Some(d),
{
    let s = date_text(d);
    let y = padded_dec(d.year as nat, 4);
    let m = padded_dec(d.month as nat, 2);
    let dd = padded_dec(d.day as nat, 2);
    lemma_dec_str_val(d.year as nat);
    lemma_dec_str_val(d.month as nat);
    lemma_dec_str_val(d.day as nat);
    lemma_dec_str_len(d.year as nat);
    lemma_dec_str_len(d.month as nat);
    lemma_dec_str_len(d.day as nat);
    lemma_padded_val(d.year as nat, 4);
    lemma_padded_val(d.month as nat, 2);
    lemma_padded_val(d.day as nat, 2);
    assert(y.len() == 4);
    assert(m.len() == 2);
    assert(dd.len() == 2);
    assert(s.len() == 10);
    assert(s.take(4) =~= y);
    assert(s.subrange(5, 7) =~= m);
    assert(s.subrange(8, 10) =~= dd);
    assert(s[4] == '-');
    assert(s[7] == '-');
}

/// Padding keeps both the digits and the value.
pub proof fn lemma_padded_val(n: nat, w: nat)
    ensures
        all_digits(padded_dec(n, w)),
        dec_val(padded_dec(n, w)) == n,
        padded_dec(n, w).len() >= w,
        padded_dec(n, w).len() >= 1,
{
    lemma_dec_str_val(n);
    let raw = dec_str(n);
    if raw.len() >= w {
    } else {
        let z = Seq::new((w - raw.len()) as nat, |i: int| '0');
        assert(forall|i: int| 0 <= i < z.len() ==> z[i] == '0');
        assert(all_digits(z)) by {
            assert(forall|i: int| 0 <= i < z.len() ==> z[i] == '0' && crate::text::is_digit('0'));
        }
        lemma_dec_val_zero_pad(z, raw);
    }
}


/// The text of a well-formed date: ten characters, digits in the date
/// positions and dashes between them.
pub proof fn lemma_date_text_shape(d: DateGhost)
    requires
        date_wf(d),
    ensures
        date_text(d).len() == 10,
        forall|i: int|
            0 <= i < 10 ==> (crate::text::is_digit(#[trigger] date_text(d)[i]) || date_text(d)[i]
                == '-'),
        date_text(d)[4] == '-',
        date_text(d)[7] == '-',
{
    let y = padded_dec(d.year as nat, 4);
    let m = padded_dec(d.month as nat, 2);
    let dd = padded_dec(d.day as nat, 2);
    lemma_dec_str_len(d.year as nat);
    lemma_dec_str_len(d.month as nat);
    lemma_dec_str_len(d.day as nat);
    lemma_padded_val(d.year as nat, 4);
    lemma_padded_val(d.month as nat, 2);
    lemma_padded_val(d.day as nat, 2);
    assert(y.len() == 4);
    assert(m.len() == 2);
    assert(dd.len() == 2);
    let t = date_text(d);
    assert(t.len() == 10);
    assert forall|i: int| 0 <= i < 10 implies (crate::text::is_digit(#[trigger] t[i]) || t[i]
        == '-') by {
        if i < 4 {
            assert(t[i] == y[i]);
            assert(all_digits(y));
        } else if i == 4 {
            assert(t[i] == '-');
        } else if i < 7 {
            assert(t[i] == m[i - 5]);
            assert(all_digits(m));
        } else if i == 7 {
            assert(t[i] == '-');
        } else {
            assert(t[i] == dd[i - 8]);
            assert(all_digits(dd));
        }
    }
    assert(t[4] == '-');
    assert(t[7] == '-');
}

} // verus!
