use vstd::prelude::*;

verus! {

// ---------------------------------------------------------------------------
// Characters
// ---------------------------------------------------------------------------

/// The characters with the Unicode `White_Space` property, the set that
/// `char::is_whitespace` recognizes.
pub open spec fn is_wsp(c: char) -> bool {
    c == ' ' || c == '\t' || c == '\n' || c == '\r' || c == '\u{000B}' || c == '\u{000C}'
        || c == '\u{0085}' || c == '\u{00A0}' || c == '\u{1680}'
        || ('\u{2000}' as u32 <= c as u32 && c as u32 <= '\u{200A}' as u32)
        || c == '\u{2028}' || c == '\u{2029}' || c == '\u{202F}' || c == '\u{205F}'
        || c == '\u{3000}'
}

pub fn wsp(c: char) -> (r: bool)
    ensures
        r == is_wsp(c),
{
    let u = c as u32;
    u == ' ' as u32 || u == '\t' as u32 || u == '\n' as u32 || u == '\r' as u32
        || u == '\u{000B}' as u32 || u == '\u{000C}' as u32 || u == '\u{0085}' as u32
        || u == '\u{00A0}' as u32 || u == '\u{1680}' as u32
        || ('\u{2000}' as u32 <= u && u <= '\u{200A}' as u32) || u == '\u{2028}' as u32
        || u == '\u{2029}' as u32 || u == '\u{202F}' as u32 || u == '\u{205F}' as u32
        || u == '\u{3000}' as u32
}

pub open spec fn is_digit(c: char) -> bool {
    '0' as u32 <= c as u32 && c as u32 <= '9' as u32
}

pub fn digit(c: char) -> (r: bool)
    ensures
        r == is_digit(c),
{
    '0' as u32 <= c as u32 && c as u32 <= '9' as u32
}

pub open spec fn digit_val(c: char) -> nat
    recommends
        is_digit(c),
{
    (c as u32 - '0' as u32) as nat
}

pub open spec fn digit_chr(d: nat) -> char
    recommends
        d < 10,
{
    if d == 0 { '0' }
    else if d == 1 { '1' }
    else if d == 2 { '2' }
    else if d == 3 { '3' }
    else if d == 4 { '4' }
    else if d == 5 { '5' }
    else if d == 6 { '6' }
    else if d == 7 { '7' }
    else if d == 8 { '8' }
    else { '9' }
}

pub proof fn lemma_digit_chr_val(d: nat)
    requires
        d < 10,
    ensures
        is_digit(digit_chr(d)),
        digit_val(digit_chr(d)) == d,
{
}

// ---------------------------------------------------------------------------
// Decimal numerals
// ---------------------------------------------------------------------------

/// The decimal numeral of `n`, without leading zeros.
pub open spec fn dec_str(n: nat) -> Seq<char>
    decreases n,
{
    if n < 10 {
        seq![digit_chr(n)]
    } else {
        dec_str(n / 10).push(digit_chr(n % 10))
    }
}

/// The value of a digit string, most significant digit first.
pub open spec fn dec_val(s: Seq<char>) -> nat
    decreases s.len(),
{
    if s.len() == 0 {
        0
    } else {
        dec_val(s.drop_last()) * 10 + digit_val(s.last())
    }
}

pub open spec fn all_digits(s: Seq<char>) -> bool {
    forall|i: int| 0 <= i < s.len() ==> is_digit(#[trigger] s[i])
}

pub proof fn lemma_dec_str_val(n: nat)
    ensures
        dec_str(n).len() >= 1,
        all_digits(dec_str(n)),
        dec_val(dec_str(n)) == n,
        n >= 1 ==> dec_str(n)[0] != '0',
        n < 10 ==> dec_str(n).len() == 1,
    decreases n,
{
    if n < 10 {
        lemma_digit_chr_val(n);
        let s = dec_str(n);
        assert(s =~= seq![digit_chr(n)]);
        assert(s.drop_last() =~= Seq::<char>::empty());
        assert(dec_val(s.drop_last()) == 0);
        assert(dec_val(s) == dec_val(s.drop_last()) * 10 + digit_val(s.last()));
    } else {
        lemma_dec_str_val(n / 10);
        lemma_digit_chr_val(n % 10);
        let s = dec_str(n);
        assert(s.drop_last() =~= dec_str(n / 10));
        assert(s.last() == digit_chr(n % 10));
        assert(forall|i: int| 0 <= i < s.len() ==> is_digit(#[trigger] s[i])) by {
            assert(forall|i: int| 0 <= i < s.len() - 1 ==> s[i] == dec_str(n / 10)[i]);
        }
    }
}

/// Appending one character to the string under `String::push`.
/// Relies on `String::push`: it appends exactly the given character.
#[verifier::external_body]
pub fn push_char(s: &mut String, c: char)
    ensures
        final(s)@ == old(s)@.push(c),
{
    s.push(c);
}

/// The view of the characters of `s`, one at a time.
pub fn str_to_chars(s: &str) -> (r: Vec<char>)
    ensures
        r@ == s@,
{
    let n = s.unicode_len();
    let mut v: Vec<char> = Vec::new();
    let mut i: usize = 0;
    while i < n
        invariant
            i <= n,
            n == s@.len(),
            v@ =~= s@.take(i as int),
        decreases n - i,
    {
        let c = s.get_char(i);
        v.push(c);
        assert(v@ =~= s@.take(i + 1 as int));
        i = i + 1;
    }
    assert(v@ =~= s@);
    v
}

pub fn chars_to_string(v: &Vec<char>) -> (r: String)
    ensures
        r@ == v@,
{
    let mut s = String::new();
    let mut i: usize = 0;
    while i < v.len()
        invariant
            i <= v@.len(),
            s@ =~= v@.take(i as int),
        decreases v@.len() - i,
    {
        push_char(&mut s, v[i]);
        assert(s@ =~= v@.take(i + 1 as int));
        i = i + 1;
    }
    assert(s@ =~= v@);
    s
}

/// The decimal numeral of `n` as text.
pub fn u64_to_string(n: u64) -> (r: String)
    ensures
        r@ == dec_str(n as nat),
    decreases n,
{
    let d: u64 = n % 10;
    let c: char = if d == 0 { '0' }
        else if d == 1 { '1' }
        else if d == 2 { '2' }
        else if d == 3 { '3' }
        else if d == 4 { '4' }
        else if d == 5 { '5' }
        else if d == 6 { '6' }
        else if d == 7 { '7' }
        else if d == 8 { '8' }
        else { '9' };
    assert(c == digit_chr((n % 10) as nat));
    if n < 10 {
        let mut s = String::new();
        push_char(&mut s, c);
        assert(s@ =~= seq![digit_chr(n as nat)]);
        s
    } else {
        let mut s = u64_to_string(n / 10);
        push_char(&mut s, c);
        s
    }
}


// ---------------------------------------------------------------------------
// Prefixes, trimming, lines
// ---------------------------------------------------------------------------

/// `p` occurs in `s` starting at position `k`.
pub open spec fn begins_at(s: Seq<char>, k: int, p: Seq<char>) -> bool {
    0 <= k && k + p.len() <= s.len() && s.subrange(k, k + p.len()) == p
}

pub fn starts_at(v: &Vec<char>, k: usize, p: &Vec<char>) -> (r: bool)
    requires
        k <= v@.len(),
    ensures
        r == begins_at(v@, k as int, p@),
{
    let n = v.len();
    if n - k < p.len() {
        return false;
    }
    let mut i: usize = 0;
    while i < p.len()
        invariant
            i <= p@.len(),
            k + p@.len() <= n,
            n == v@.len(),
            forall|j: int| 0 <= j < i ==> v@[k + j] == p@[j],
        decreases p@.len() - i,
    {
        if v[k + i] != p[i] {
            assert(s_neq(v@, k as int, p@, i as int));
            return false;
        }
        i = i + 1;
    }
    assert(v@.subrange(k as int, k + p@.len()) =~= p@);
    true
}

/// Helper fact: a mismatch at offset `i` refutes the prefix.
pub open spec fn s_neq(s: Seq<char>, k: int, p: Seq<char>, i: int) -> bool {
    0 <= i < p.len() && k + p.len() <= s.len() && s[k + i] != p[i]
        ==> s.subrange(k, k + p.len()) != p
}

/// Length of `s` once trailing whitespace is removed.
pub open spec fn trim_end_len(s: Seq<char>) -> int
    decreases s.len(),
{
    if s.len() == 0 {
        0
    } else if is_wsp(s.last()) {
        trim_end_len(s.drop_last())
    } else {
        s.len() as int
    }
}

pub open spec fn trimmed_end(s: Seq<char>) -> Seq<char> {
    s.take(trim_end_len(s))
}

pub proof fn lemma_trim_end_len(s: Seq<char>)
    ensures
        0 <= trim_end_len(s) <= s.len(),
        forall|j: int| trim_end_len(s) <= j < s.len() ==> is_wsp(#[trigger] s[j]),
        trim_end_len(s) > 0 ==> !is_wsp(s[trim_end_len(s) - 1]),
    decreases s.len(),
{
    if s.len() == 0 {
    } else if is_wsp(s.last()) {
        lemma_trim_end_len(s.drop_last());
        assert(forall|j: int| 0 <= j < s.len() - 1 ==> s.drop_last()[j] == s[j]);
    } else {
    }
}

pub fn trim_end_pos(v: &Vec<char>) -> (r: usize)
    ensures
        r as int == trim_end_len(v@),
{
    let mut i: usize = v.len();
    assert(v@.take(i as int) =~= v@);
    while i > 0
        invariant
            i <= v@.len(),
            trim_end_len(v@) == trim_end_len(v@.take(i as int)),
        decreases i,
    {
        if !wsp(v[i - 1]) {
            assert(v@.take(i as int).last() == v@[i - 1]);
            assert(trim_end_len(v@.take(i as int)) == i);
            return i;
        }
        assert(v@.take(i as int).drop_last() =~= v@.take(i - 1 as int));
        assert(trim_end_len(v@.take(i as int)) == trim_end_len(v@.take(i - 1 as int)));
        i = i - 1;
    }
    assert(v@.take(0) =~= Seq::<char>::empty());
    0
}

/// Length of the leading whitespace of `s`.
pub open spec fn trim_start_len(s: Seq<char>) -> int
    decreases s.len(),
{
    if s.len() == 0 {
        0
    } else if is_wsp(s[0]) {
        1 + trim_start_len(s.skip(1))
    } else {
        0
    }
}

/// `s` with whitespace removed from both ends, as `str::trim` leaves it.
pub open spec fn trimmed(s: Seq<char>) -> Seq<char> {
    let t = trimmed_end(s);
    t.skip(trim_start_len(t))
}

pub proof fn lemma_trim_start_len(s: Seq<char>)
    ensures
        0 <= trim_start_len(s) <= s.len(),
        forall|j: int| 0 <= j < trim_start_len(s) ==> is_wsp(#[trigger] s[j]),
        trim_start_len(s) < s.len() ==> !is_wsp(s[trim_start_len(s)]),
    decreases s.len(),
{
    if s.len() == 0 {
    } else if is_wsp(s[0]) {
        lemma_trim_start_len(s.skip(1));
        assert forall|j: int| 0 <= j < trim_start_len(s) implies is_wsp(#[trigger] s[j]) by {
            if j > 0 {
                assert(is_wsp(s.skip(1)[j - 1]));
            }
        }
        if trim_start_len(s) < s.len() {
            assert(s[trim_start_len(s)] == s.skip(1)[trim_start_len(s) - 1]);
        }
    } else {
    }
}

pub fn trim_start_pos(v: &Vec<char>, upto: usize) -> (r: usize)
    requires
        upto <= v@.len(),
    ensures
        r as int == trim_start_len(v@.take(upto as int)),
        r <= upto,
{
    let ghost s = v@.take(upto as int);
    proof {
        lemma_trim_start_len(s);
        assert(s.skip(0) =~= s);
    }
    let mut i: usize = 0;
    while i < upto
        invariant
            i <= upto <= v@.len(),
            s == v@.take(upto as int),
            trim_start_len(s) == i + trim_start_len(s.skip(i as int)),
            trim_start_len(s) >= i,
        decreases upto - i,
    {
        assert(s.skip(i as int)[0] == v@[i as int]);
        if !wsp(v[i]) {
            assert(trim_start_len(s.skip(i as int)) == 0);
            return i;
        }
        assert(s.skip(i as int).skip(1) =~= s.skip(i + 1 as int));
        proof {
            lemma_trim_start_len(s.skip(i + 1 as int));
        }
        i = i + 1;
    }
    assert(s.skip(upto as int) =~= Seq::<char>::empty());
    i
}

/// `v[from..to]` trimmed at both ends, as owned text.
pub fn trim_region(v: &Vec<char>, from: usize, to: usize) -> (r: Vec<char>)
    requires
        from <= to <= v@.len(),
    ensures
        r@ == trimmed(v@.subrange(from as int, to as int)),
{
    let ghost s = v@.subrange(from as int, to as int);
    let mut piece: Vec<char> = Vec::new();
    let mut i: usize = from;
    while i < to
        invariant
            from <= i <= to <= v@.len(),
            s == v@.subrange(from as int, to as int),
            piece@ =~= s.take(i - from),
        decreases to - i,
    {
        piece.push(v[i]);
        assert(piece@ =~= s.take(i + 1 - from));
        i = i + 1;
    }
    assert(piece@ =~= s);
    let e = trim_end_pos(&piece);
    proof {
        lemma_trim_end_len(piece@);
    }
    let b = trim_start_pos(&piece, e);
    assert(piece@.take(e as int) =~= trimmed_end(s));
    let mut out: Vec<char> = Vec::new();
    let mut j: usize = b;
    while j < e
        invariant
            b <= j <= e <= piece@.len(),
            piece@ == s,
            e as int == trim_end_len(s),
            b as int == trim_start_len(trimmed_end(s)),
            out@ =~= trimmed_end(s).subrange(b as int, j as int),
        decreases e - j,
    {
        out.push(piece[j]);
        assert(out@ =~= trimmed_end(s).subrange(b as int, j + 1 as int));
        j = j + 1;
    }
    assert(out@ =~= trimmed_end(s).skip(trim_start_len(trimmed_end(s))));
    out
}


// ---------------------------------------------------------------------------
// Reading numerals
// ---------------------------------------------------------------------------

/// `s` is a numeral that a `u64` can hold.
pub open spec fn valid_u64(s: Seq<char>) -> bool {
    s.len() > 0 && all_digits(s) && dec_val(s) <= u64::MAX
}

pub proof fn lemma_dec_val_prefix(s: Seq<char>, k: int)
    requires
        0 <= k <= s.len(),
    ensures
        dec_val(s) >= dec_val(s.take(k)),
    decreases s.len() - k,
{
    if k < s.len() {
        assert(s.take(k + 1).drop_last() =~= s.take(k));
        assert(s.take(k + 1).last() == s[k]);
        assert(dec_val(s.take(k + 1)) == dec_val(s.take(k)) * 10 + digit_val(s[k]));
        lemma_dec_val_prefix(s, k + 1);
    } else {
        assert(s.take(k) =~= s);
    }
}

/// The value of the numeral in `v[from..to]`, exactly when the region is a
/// numeral whose value a `u64` can hold.
pub fn parse_u64(v: &Vec<char>, from: usize, to: usize) -> (r: Option<u64>)
    requires
        from <= to <= v@.len(),
    ensures
        match r {
            Some(n) => valid_u64(v@.subrange(from as int, to as int)) && n as nat == dec_val(
                v@.subrange(from as int, to as int),
            ),
            None => !valid_u64(v@.subrange(from as int, to as int)),
        },
{
    let ghost s = v@.subrange(from as int, to as int);
    if from == to {
        return None;
    }
    let mut acc: u64 = 0;
    let mut i: usize = from;
    while i < to
        invariant
            from <= i <= to <= v@.len(),
            s == v@.subrange(from as int, to as int),
            all_digits(s.take(i - from)),
            acc as nat == dec_val(s.take(i - from)),
        decreases to - i,
    {
        let c = v[i];
        assert(s[i - from] == c);
        if !digit(c) {
            return None;
        }
        let d: u64 = (c as u32 - '0' as u32) as u64;
        assert(d as nat == digit_val(c));
        assert(s.take(i + 1 - from).drop_last() =~= s.take(i - from));
        assert(s.take(i + 1 - from).last() == c);
        if acc > (u64::MAX - d) / 10 {
            proof {
                assert(acc * 10 + d > u64::MAX) by (nonlinear_arith)
                    requires
                        acc > (u64::MAX - d) / 10,
                        d <= 9,
                ;
                assert(dec_val(s.take(i + 1 - from)) > u64::MAX);
                lemma_dec_val_prefix(s, i + 1 - from);
            }
            return None;
        }
        proof {
            assert(acc * 10 + d <= u64::MAX) by (nonlinear_arith)
                requires
                    acc <= (u64::MAX - d) / 10,
                    d <= 9,
            ;
        }
        acc = acc * 10 + d;
        i = i + 1;
    }
    assert(s.take(to - from) =~= s);
    Some(acc)
}

// ---------------------------------------------------------------------------
// Replacement
// ---------------------------------------------------------------------------

/// `s` with every occurrence of `pat` replaced by `sub`, scanning left to
/// right without overlap, as `str::replace` does.
pub open spec fn replace_seq(s: Seq<char>, pat: Seq<char>, sub: Seq<char>) -> Seq<char>
    decreases s.len(),
{
    if s.len() == 0 {
        s
    } else if pat.len() > 0 && begins_at(s, 0, pat) {
        sub + replace_seq(s.skip(pat.len() as int), pat, sub)
    } else {
        seq![s[0]] + replace_seq(s.skip(1), pat, sub)
    }
}

pub fn replace_chars(v: &Vec<char>, pat: &Vec<char>, sub: &Vec<char>) -> (r: Vec<char>)
    requires
        pat@.len() > 0,
    ensures
        r@ == replace_seq(v@, pat@, sub@),
{
    let mut out: Vec<char> = Vec::new();
    let mut i: usize = 0;
    assert(v@.skip(0) =~= v@);
    while i < v.len()
        invariant
            i <= v@.len(),
            pat@.len() > 0,
            replace_seq(v@, pat@, sub@) == out@ + replace_seq(v@.skip(i as int), pat@, sub@),
        decreases v@.len() - i,
    {
        let ghost rest = v@.skip(i as int);
        if starts_at(v, i, pat) {
            assert(rest.subrange(0, pat@.len() as int) =~= v@.subrange(
                i as int,
                i + pat@.len(),
            ));
            assert(begins_at(rest, 0, pat@));
            let ghost out0 = out@;
            let mut j: usize = 0;
            while j < sub.len()
                invariant
                    j <= sub@.len(),
                    out@ =~= out0 + sub@.take(j as int),
                decreases sub@.len() - j,
            {
                out.push(sub[j]);
                assert(out@ =~= out0 + sub@.take(j + 1 as int));
                j = j + 1;
            }
            assert(out@ =~= out0 + sub@);
            assert(rest.skip(pat@.len() as int) =~= v@.skip(i + pat@.len()));
            assert(replace_seq(rest, pat@, sub@) == sub@ + replace_seq(
                v@.skip(i + pat@.len()),
                pat@,
                sub@,
            ));
            assert((out0 + sub@) + replace_seq(v@.skip(i + pat@.len()), pat@, sub@) =~= out0 + (
            sub@ + replace_seq(v@.skip(i + pat@.len()), pat@, sub@)));
            i = i + pat.len();
        } else {
            proof {
                if begins_at(rest, 0int, pat@) {
                    assert(rest.subrange(0, pat@.len() as int) =~= v@.subrange(
                        i as int,
                        i + pat@.len(),
                    ));
                }
            }
            assert(!begins_at(rest, 0int, pat@));
            assert(rest[0] == v@[i as int]);
            let ghost out0 = out@;
            out.push(v[i]);
            assert(rest.skip(1) =~= v@.skip(i + 1));
            assert(replace_seq(rest, pat@, sub@) == seq![v@[i as int]] + replace_seq(
                v@.skip(i + 1),
                pat@,
                sub@,
            ));
            assert((out0 + seq![v@[i as int]]) + replace_seq(v@.skip(i + 1), pat@, sub@) =~= out0
                + (seq![v@[i as int]] + replace_seq(v@.skip(i + 1), pat@, sub@)));
            assert(out@ =~= out0 + seq![v@[i as int]]);
            i = i + 1;
        }
    }
    assert(v@.skip(v@.len() as int) =~= Seq::<char>::empty());
    out
}

// ---------------------------------------------------------------------------
// Lines
// ---------------------------------------------------------------------------

/// The position of the first line break at or after `k`, or the end of `s`.
pub open spec fn line_end(s: Seq<char>, k: int) -> int
    decreases s.len() - k when 0 <= k <= s.len()
{
    if 0 <= k < s.len() {
        if s[k] == '\n' {
            k
        } else {
            line_end(s, k + 1)
        }
    } else {
        s.len() as int
    }
}

pub proof fn lemma_line_end(s: Seq<char>, k: int)
    requires
        0 <= k <= s.len(),
    ensures
        k <= line_end(s, k) <= s.len(),
        line_end(s, k) < s.len() ==> s[line_end(s, k)] == '\n',
        forall|j: int| k <= j < line_end(s, k) ==> s[j] != '\n',
    decreases s.len() - k,
{
    if k < s.len() && s[k] != '\n' {
        lemma_line_end(s, k + 1);
    }
}

pub fn find_nl(v: &Vec<char>, from: usize) -> (r: usize)
    requires
        from <= v@.len(),
    ensures
        r as int == line_end(v@, from as int),
        from <= r <= v@.len(),
{
    proof {
        lemma_line_end(v@, from as int);
    }
    let mut i: usize = from;
    while i < v.len()
        invariant
            from <= i <= v@.len(),
            line_end(v@, from as int) == line_end(v@, i as int),
        decreases v@.len() - i,
    {
        if v[i] == '\n' {
            return i;
        }
        i = i + 1;
    }
    i
}

/// The lines of `s[k..]`, split at each line break; the break itself belongs
/// to no line, and text after the last break forms a final line.
pub open spec fn lines_from(s: Seq<char>, k: int) -> Seq<Seq<char>>
    decreases s.len() - k when 0 <= k <= s.len() via lines_from_dec
{
    if 0 <= k < s.len() {
        let e = line_end(s, k);
        if e == s.len() {
            seq![s.subrange(k, e)]
        } else {
            seq![s.subrange(k, e)] + lines_from(s, e + 1)
        }
    } else {
        Seq::empty()
    }
}

#[via_fn]
proof fn lines_from_dec(s: Seq<char>, k: int) {
    if 0 <= k < s.len() {
        lemma_line_end(s, k);
    }
}

pub open spec fn str_views(ss: Seq<String>) -> Seq<Seq<char>> {
    ss.map_values(|x: String| x@)
}

/// The lines of `v`, each as owned text.
pub fn split_lines(v: &Vec<char>) -> (r: Vec<String>)
    ensures
        str_views(r@) == lines_from(v@, 0),
{
    let mut out: Vec<String> = Vec::new();
    let mut i: usize = 0;
    assert(str_views(out@) =~= Seq::<Seq<char>>::empty());
    while i < v.len()
        invariant
            i <= v@.len(),
            lines_from(v@, 0) =~= str_views(out@) + lines_from(v@, i as int),
        decreases v@.len() - i,
    {
        let e = find_nl(v, i);
        let mut piece: Vec<char> = Vec::new();
        let mut j: usize = i;
        while j < e
            invariant
                i <= j <= e <= v@.len(),
                piece@ =~= v@.subrange(i as int, j as int),
            decreases e - j,
        {
            piece.push(v[j]);
            assert(piece@ =~= v@.subrange(i as int, j + 1 as int));
            j = j + 1;
        }
        let line = chars_to_string(&piece);
        let ghost out0 = out@;
        out.push(line);
        assert(str_views(out@) =~= str_views(out0) + seq![piece@]);
        if e == v.len() {
            assert(lines_from(v@, i as int) == seq![v@.subrange(i as int, e as int)]);
            assert(lines_from(v@, 0) =~= str_views(out@));
            return out;
        }
        proof {
            assert(lines_from(v@, i as int) == seq![v@.subrange(i as int, e as int)]
                + lines_from(v@, e + 1));
            assert(str_views(out@) + lines_from(v@, e + 1) =~= (str_views(out0) + lines_from(
                v@,
                i as int,
            )));
        }
        i = e + 1;
    }
    assert(lines_from(v@, i as int) =~= Seq::<Seq<char>>::empty());
    assert(str_views(out@) =~= str_views(out@) + lines_from(v@, i as int));
    out
}


// ---------------------------------------------------------------------------
// Finding characters
// ---------------------------------------------------------------------------

/// The position of the first `c` at or after `k`, or the end of `s`.
pub open spec fn find_chr(s: Seq<char>, k: int, c: char) -> int
    decreases s.len() - k when 0 <= k <= s.len()
{
    if 0 <= k < s.len() {
        if s[k] == c {
            k
        } else {
            find_chr(s, k + 1, c)
        }
    } else {
        s.len() as int
    }
}

pub proof fn lemma_find_chr(s: Seq<char>, k: int, c: char)
    requires
        0 <= k <= s.len(),
    ensures
        k <= find_chr(s, k, c) <= s.len(),
        find_chr(s, k, c) < s.len() ==> s[find_chr(s, k, c)] == c,
        forall|j: int| k <= j < find_chr(s, k, c) ==> s[j] != c,
    decreases s.len() - k,
{
    if k < s.len() && s[k] != c {
        lemma_find_chr(s, k + 1, c);
    }
}

/// The first occurrence is the only position clear of `c` before it.
pub proof fn lemma_find_chr_is(s: Seq<char>, k: int, c: char, p: int)
    requires
        0 <= k <= p <= s.len(),
        p < s.len() ==> s[p] == c,
        forall|j: int| k <= j < p ==> s[j] != c,
    ensures
        find_chr(s, k, c) == p,
    decreases p - k,
{
    if k < p {
        lemma_find_chr_is(s, k + 1, c, p);
    }
}

pub fn find_chr_pos(v: &Vec<char>, from: usize, c: char) -> (r: usize)
    requires
        from <= v@.len(),
    ensures
        r as int == find_chr(v@, from as int, c),
        from <= r <= v@.len(),
{
    proof {
        lemma_find_chr(v@, from as int, c);
    }
    let mut i: usize = from;
    while i < v.len()
        invariant
            from <= i <= v@.len(),
            find_chr(v@, from as int, c) == find_chr(v@, i as int, c),
        decreases v@.len() - i,
    {
        if v[i] == c {
            return i;
        }
        i = i + 1;
    }
    i
}

/// The position of the last `c` in `s`, or -1 when there is none.
pub open spec fn rfind_chr(s: Seq<char>, c: char) -> int
    decreases s.len(),
{
    if s.len() == 0 {
        -1
    } else if s.last() == c {
        s.len() - 1
    } else {
        rfind_chr(s.drop_last(), c)
    }
}

pub proof fn lemma_rfind_chr(s: Seq<char>, c: char)
    ensures
        -1 <= rfind_chr(s, c) < s.len(),
        rfind_chr(s, c) >= 0 ==> s[rfind_chr(s, c)] == c,
        forall|j: int| rfind_chr(s, c) < j < s.len() ==> s[j] != c,
    decreases s.len(),
{
    if s.len() > 0 && s.last() != c {
        lemma_rfind_chr(s.drop_last(), c);
        assert(forall|j: int| 0 <= j < s.len() - 1 ==> s.drop_last()[j] == s[j]);
    }
}

/// The last occurrence is the only position clear of `c` after it.
pub proof fn lemma_rfind_chr_is(s: Seq<char>, c: char, p: int)
    requires
        -1 <= p < s.len(),
        p >= 0 ==> s[p] == c,
        forall|j: int| p < j < s.len() ==> s[j] != c,
    ensures
        rfind_chr(s, c) == p,
    decreases s.len(),
{
    if s.len() > 0 && s.last() != c {
        assert(p < s.len() - 1);
        assert(forall|j: int| 0 <= j < s.len() - 1 ==> s.drop_last()[j] == s[j]);
        lemma_rfind_chr_is(s.drop_last(), c, p);
    }
}

pub fn rfind_chr_pos(v: &Vec<char>, c: char) -> (r: Option<usize>)
    ensures
        match r {
            Some(p) => p as int == rfind_chr(v@, c),
            None => rfind_chr(v@, c) == -1,
        },
{
    let mut i: usize = v.len();
    assert(v@.take(i as int) =~= v@);
    while i > 0
        invariant
            i <= v@.len(),
            rfind_chr(v@, c) == rfind_chr(v@.take(i as int), c),
        decreases i,
    {
        assert(v@.take(i as int).last() == v@[i - 1]);
        if v[i - 1] == c {
            assert(rfind_chr(v@.take(i as int), c) == i - 1);
            return Some(i - 1);
        }
        assert(v@.take(i as int).drop_last() =~= v@.take(i - 1 as int));
        i = i - 1;
    }
    assert(v@.take(0) =~= Seq::<char>::empty());
    None
}

/// Copy of `v[from..to]` as its own vector.
pub fn copy_region(v: &Vec<char>, from: usize, to: usize) -> (r: Vec<char>)
    requires
        from <= to <= v@.len(),
    ensures
        r@ == v@.subrange(from as int, to as int),
{
    let mut out: Vec<char> = Vec::new();
    let mut i: usize = from;
    while i < to
        invariant
            from <= i <= to <= v@.len(),
            out@ =~= v@.subrange(from as int, i as int),
        decreases to - i,
    {
        out.push(v[i]);
        assert(out@ =~= v@.subrange(from as int, i + 1 as int));
        i = i + 1;
    }
    out
}

/// Append the characters of `w` to `v`.
pub fn extend_chars(v: &mut Vec<char>, w: &Vec<char>)
    ensures
        final(v)@ == old(v)@ + w@,
{
    let ghost v0 = v@;
    let mut i: usize = 0;
    while i < w.len()
        invariant
            i <= w@.len(),
            v@ =~= v0 + w@.take(i as int),
        decreases w@.len() - i,
    {
        v.push(w[i]);
        assert(v@ =~= v0 + w@.take(i + 1 as int));
        i = i + 1;
    }
    assert(v@ =~= v0 + w@);
}

/// At the view level the start of the first line break at or after `k`.
pub proof fn lemma_line_end_is(s: Seq<char>, k: int, p: int)
    requires
        0 <= k <= p <= s.len(),
        p < s.len() ==> s[p] == '\n',
        forall|j: int| k <= j < p ==> s[j] != '\n',
    ensures
        line_end(s, k) == p,
    decreases p - k,
{
    if k < p {
        lemma_line_end_is(s, k + 1, p);
    }
}

} // verus!
