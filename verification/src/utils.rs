use vstd::prelude::*;

verus! {

// ---------------------------------------------------------------------------
// Conversions between String and Vec<char>
// ---------------------------------------------------------------------------

/// Relies on String::push: appends one character at the end.
#[verifier::external_body]
pub(crate) fn push_char(s: &mut String, c: char)
    ensures
        final(s)@ == old(s)@.push(c),
{
    s.push(c);
}

/// Builds a `String` from a vector of characters, one for one.
pub fn chars_to_string(v: &Vec<char>) -> (r: String)
    ensures
        r@ == v@,
{
    let mut s = String::new();
    let mut i: usize = 0;
    while i < v.len()
        invariant
            i <= v.len(),
            s@ == v@.take(i as int),
        decreases v.len() - i,
    {
        let c = v[i];
        push_char(&mut s, c);
        i += 1;
        proof {
            assert(s@ =~= v@.take(i as int));
        }
    }
    proof {
        assert(v@.take(v@.len() as int) =~= v@);
    }
    s
}

/// Collects the characters of a string slice into a vector, one for one.
pub fn str_to_chars(s: &str) -> (r: Vec<char>)
    ensures
        r@ == s@,
{
    let n = s.unicode_len();
    let mut v: Vec<char> = Vec::new();
    let mut i: usize = 0;
    while i < n
        invariant
            i <= n,
            n == s@.len(),
            v@ == s@.take(i as int),
        decreases n - i,
    {
        let c = s.get_char(i);
        v.push(c);
        i += 1;
        proof {
            assert(v@ =~= s@.take(i as int));
        }
    }
    proof {
        assert(s@.take(s@.len() as int) =~= s@);
    }
    v
}

// ---------------------------------------------------------------------------
// String utilities
// ---------------------------------------------------------------------------

/// The slice of `s` that starts at `pos` and holds at most `len` characters,
/// clamped to the end of `s`.
pub open spec fn spec_substr(s: Seq<char>, pos: int, len: int) -> Seq<char> {
    let start = if pos <= s.len() {
        pos
    } else {
        s.len() as int
    };
    let end = if pos + len <= s.len() {
        pos + len
    } else {
        s.len() as int
    };
    if start <= end {
        s.subrange(start, end)
    } else {
        Seq::empty()
    }
}

/// `s` repeated from its start until `max_len` characters stand there;
/// an empty `s` stays empty.
pub open spec fn spec_repeat_to(s: Seq<char>, max_len: int) -> Seq<char> {
    if s.len() == 0 {
        s
    } else {
        Seq::new(max_len as nat, |i: int| s[i % (s.len() as int)])
    }
}

/// `s` left-padded with `c` up to `max_len` characters.
pub open spec fn spec_pad_start(s: Seq<char>, max_len: int, c: char) -> Seq<char> {
    if max_len > s.len() {
        Seq::new((max_len - s.len()) as nat, |i: int| c) + s
    } else {
        s
    }
}

/// `s` right-padded with `c` up to `max_len` characters.
pub open spec fn spec_pad_end(s: Seq<char>, max_len: int, c: char) -> Seq<char> {
    if max_len > s.len() {
        s + Seq::new((max_len - s.len()) as nat, |i: int| c)
    } else {
        s
    }
}

/// Character-level helpers on owned strings.
pub trait StrUtil: Sized + View<V = Seq<char>> {
    fn substr(&self, pos: usize, len: usize) -> (r: Self)
        ensures
            r@ == spec_substr(self@, pos as int, len as int),
    ;

    fn substr_after(&self, pos: usize) -> (r: Self)
        ensures
            r@ == spec_substr(self@, pos as int, usize::MAX as int),
    ;

    fn repeat_to(&self, max_len: usize) -> (r: Self)
        ensures
            r@ == spec_repeat_to(self@, max_len as int),
    ;

    fn pad_start(&self, max_len: usize, c: char) -> (r: Self)
        ensures
            r@ == spec_pad_start(self@, max_len as int, c),
    ;

    fn pad_end(&self, max_len: usize, c: char) -> (r: Self)
        ensures
            r@ == spec_pad_end(self@, max_len as int, c),
    ;

    fn pad_start_str(&self, max_len: usize, s: &str) -> (r: Self)
        ensures
            r@ == (if max_len as int > self@.len() {
                spec_repeat_to(s@, max_len - self@.len()) + self@
            } else {
                self@
            }),
    ;

    fn pad_end_str(&self, max_len: usize, s: &str) -> (r: Self)
        ensures
            r@ == (if max_len as int > self@.len() {
                self@ + spec_repeat_to(s@, max_len - self@.len())
            } else {
                self@
            }),
    ;
}

impl StrUtil for String {
    fn substr(&self, pos: usize, len: usize) -> (r: Self) {
        let v = str_to_chars(self.as_str());
        let n = v.len();
        let start: usize = if pos <= n {
            pos
        } else {
            n
        };
        let rem: usize = n - start;
        let take: usize = if len <= rem {
            len
        } else {
            rem
        };
        let mut out: Vec<char> = Vec::new();
        let mut i: usize = 0;
        while i < take
            invariant
                i <= take,
                start + take <= n,
                n == v@.len(),
                v@ == self@,
                out@ == v@.subrange(start as int, start as int + i as int),
            decreases take - i,
        {
            out.push(v[start + i]);
            i += 1;
            proof {
                assert(out@ =~= v@.subrange(start as int, start as int + i as int));
            }
        }
        proof {
            assert(out@ =~= spec_substr(self@, pos as int, len as int));
        }
        chars_to_string(&out)
    }

    fn substr_after(&self, pos: usize) -> (r: Self) {
        self.substr(pos, usize::MAX)
    }

    fn repeat_to(&self, max_len: usize) -> (r: Self) {
        let v = str_to_chars(self.as_str());
        let n = v.len();
        if n == 0 {
            proof {
                assert(spec_repeat_to(self@, max_len as int) =~= self@);
            }
            return chars_to_string(&v);
        }
        let mut out: Vec<char> = Vec::new();
        let mut i: usize = 0;
        while i < max_len
            invariant
                i <= max_len,
                n == v@.len(),
                n > 0,
                v@ == self@,
                out@ == spec_repeat_to(self@, max_len as int).take(i as int),
            decreases max_len - i,
        {
            out.push(v[i % n]);
            i += 1;
            proof {
                assert(out@ =~= spec_repeat_to(self@, max_len as int).take(i as int));
            }
        }
        proof {
            assert(out@ =~= spec_repeat_to(self@, max_len as int));
        }
        chars_to_string(&out)
    }

    fn pad_start(&self, max_len: usize, c: char) -> (r: Self) {
        let v = str_to_chars(self.as_str());
        let n = v.len();
        if max_len <= n {
            proof {
                assert(spec_pad_start(self@, max_len as int, c) =~= self@);
            }
            return chars_to_string(&v);
        }
        let pad: usize = max_len - n;
        let mut out: Vec<char> = Vec::new();
        let mut i: usize = 0;
        while i < pad
            invariant
                i <= pad,
                out@ == Seq::new(i as nat, |j: int| c),
            decreases pad - i,
        {
            out.push(c);
            i += 1;
            proof {
                assert(out@ =~= Seq::new(i as nat, |j: int| c));
            }
        }
        let mut k: usize = 0;
        while k < n
            invariant
                k <= n,
                n == v@.len(),
                v@ == self@,
                out@ == Seq::new(pad as nat, |j: int| c) + v@.take(k as int),
            decreases n - k,
        {
            out.push(v[k]);
            k += 1;
            proof {
                assert(out@ =~= Seq::new(pad as nat, |j: int| c) + v@.take(k as int));
            }
        }
        proof {
            assert(out@ =~= spec_pad_start(self@, max_len as int, c));
        }
        chars_to_string(&out)
    }

    fn pad_end(&self, max_len: usize, c: char) -> (r: Self) {
        let v = str_to_chars(self.as_str());
        let n = v.len();
        if max_len <= n {
            proof {
                assert(spec_pad_end(self@, max_len as int, c) =~= self@);
            }
            return chars_to_string(&v);
        }
        let pad: usize = max_len - n;
        let mut out = str_to_chars(self.as_str());
        let mut i: usize = 0;
        while i < pad
            invariant
                i <= pad,
                out@ == self@ + Seq::new(i as nat, |j: int| c),
            decreases pad - i,
        {
            out.push(c);
            i += 1;
            proof {
                assert(out@ =~= self@ + Seq::new(i as nat, |j: int| c));
            }
        }
        proof {
            assert(out@ =~= spec_pad_end(self@, max_len as int, c));
        }
        chars_to_string(&out)
    }

    fn pad_start_str(&self, max_len: usize, s: &str) -> (r: Self) {
        let v = str_to_chars(self.as_str());
        let n = v.len();
        if max_len <= n {
            return chars_to_string(&v);
        }
        let filler = String::from_str(s).repeat_to(max_len - n);
        let mut out = str_to_chars(filler.as_str());
        let mut k: usize = 0;
        while k < n
            invariant
                k <= n,
                n == v@.len(),
                v@ == self@,
                out@ == filler@ + v@.take(k as int),
            decreases n - k,
        {
            out.push(v[k]);
            k += 1;
            proof {
                assert(out@ =~= filler@ + v@.take(k as int));
            }
        }
        proof {
            assert(out@ =~= filler@ + self@);
        }
        chars_to_string(&out)
    }

    fn pad_end_str(&self, max_len: usize, s: &str) -> (r: Self) {
        let v = str_to_chars(self.as_str());
        let n = v.len();
        if max_len <= n {
            return chars_to_string(&v);
        }
        let filler = String::from_str(s).repeat_to(max_len - n);
        let fv = str_to_chars(filler.as_str());
        let mut out = str_to_chars(self.as_str());
        let mut k: usize = 0;
        let m = fv.len();
        while k < m
            invariant
                k <= m,
                m == fv@.len(),
                fv@ == filler@,
                out@ == self@ + fv@.take(k as int),
            decreases m - k,
        {
            out.push(fv[k]);
            k += 1;
            proof {
                assert(out@ =~= self@ + fv@.take(k as int));
            }
        }
        proof {
            assert(out@ =~= self@ + filler@);
        }
        chars_to_string(&out)
    }
}

// ---------------------------------------------------------------------------
// Decimal rendering
// ---------------------------------------------------------------------------

/// The decimal digit character for `d`.
pub open spec fn spec_digit(d: int) -> char {
    if d == 0 {
        '0'
    } else if d == 1 {
        '1'
    } else if d == 2 {
        '2'
    } else if d == 3 {
        '3'
    } else if d == 4 {
        '4'
    } else if d == 5 {
        '5'
    } else if d == 6 {
        '6'
    } else if d == 7 {
        '7'
    } else if d == 8 {
        '8'
    } else {
        '9'
    }
}

/// The decimal writing of a non-negative integer, without sign or leading zeros.
pub open spec fn spec_nat_str(n: int) -> Seq<char>
    decreases n,
{
    if n < 10 {
        seq![spec_digit(n)]
    } else {
        spec_nat_str(n / 10).push(spec_digit(n % 10))
    }
}

/// The decimal writing of an integer, with a leading `-` when negative.
pub open spec fn spec_int_str(n: int) -> Seq<char> {
    if n >= 0 {
        spec_nat_str(n)
    } else {
        seq!['-'] + spec_nat_str(-n)
    }
}

fn digit_char(d: u64) -> (c: char)
    requires
        d < 10,
    ensures
        c == spec_digit(d as int),
{
    if d == 0 {
        '0'
    } else if d == 1 {
        '1'
    } else if d == 2 {
        '2'
    } else if d == 3 {
        '3'
    } else if d == 4 {
        '4'
    } else if d == 5 {
        '5'
    } else if d == 6 {
        '6'
    } else if d == 7 {
        '7'
    } else if d == 8 {
        '8'
    } else {
        '9'
    }
}

/// Writes `n` in decimal.
pub fn u64_to_string(n: u64) -> (r: String)
    ensures
        r@ == spec_nat_str(n as int),
{
    let mut rev: Vec<char> = Vec::new();
    rev.push(digit_char(n % 10));
    let mut m: u64 = n / 10;
    proof {
        assert(spec_nat_str(n as int) =~= (if m > 0 {
            spec_nat_str(m as int) + rev@.reverse()
        } else {
            rev@.reverse()
        }));
    }
    while m > 0
        invariant
            rev@.len() >= 1,
            spec_nat_str(n as int) =~= (if m > 0 {
                spec_nat_str(m as int) + rev@.reverse()
            } else {
                rev@.reverse()
            }),
        decreases m,
    {
        let ghost prev = rev@;
        rev.push(digit_char(m % 10));
        proof {
            assert(rev@.reverse() =~= seq![spec_digit(m as int % 10)] + prev.reverse());
        }
        m = m / 10;
        proof {
            if m > 0 {
                assert(spec_nat_str(n as int) =~= spec_nat_str(m as int) + rev@.reverse());
            } else {
                assert(spec_nat_str(n as int) =~= rev@.reverse());
            }
        }
    }
    let mut out: Vec<char> = Vec::new();
    let len = rev.len();
    let mut i: usize = 0;
    while i < len
        invariant
            i <= len,
            len == rev@.len(),
            out@ == rev@.reverse().take(i as int),
        decreases len - i,
    {
        out.push(rev[len - 1 - i]);
        i += 1;
        proof {
            assert(out@ =~= rev@.reverse().take(i as int));
        }
    }
    proof {
        assert(out@ =~= rev@.reverse());
    }
    chars_to_string(&out)
}

/// Writes `n` in decimal, with a leading `-` when negative.
pub fn i64_to_string(n: i64) -> (r: String)
    ensures
        r@ == spec_int_str(n as int),
{
    if n >= 0 {
        u64_to_string(n as u64)
    } else {
        let mag: u64 = if n == i64::MIN {
            9223372036854775808u64
        } else {
            (-n) as u64
        };
        let digits = u64_to_string(mag);
        let mut out: Vec<char> = Vec::new();
        out.push('-');
        let dv = str_to_chars(digits.as_str());
        let mut i: usize = 0;
        let m = dv.len();
        while i < m
            invariant
                i <= m,
                m == dv@.len(),
                dv@ == digits@,
                out@ == seq!['-'] + dv@.take(i as int),
            decreases m - i,
        {
            out.push(dv[i]);
            i += 1;
            proof {
                assert(out@ =~= seq!['-'] + dv@.take(i as int));
            }
        }
        proof {
            assert(out@ =~= seq!['-'] + digits@);
            assert(out@ =~= spec_int_str(n as int));
        }
        chars_to_string(&out)
    }
}

// ---------------------------------------------------------------------------
// Decimal parsing
// ---------------------------------------------------------------------------

/// Whether `c` is a decimal digit.
pub open spec fn spec_is_digit(c: char) -> bool {
    48 <= c as u32 <= 57
}

/// The value of the digit character `c`.
pub open spec fn spec_digit_val(c: char) -> int {
    c as u32 - 48
}

/// The value of a run of digit characters read left to right.
pub open spec fn spec_digits_val(s: Seq<char>) -> int
    decreases s.len(),
{
    if s.len() == 0 {
        0
    } else {
        spec_digits_val(s.drop_last()) * 10 + spec_digit_val(s.last())
    }
}

/// The digit run of `s` after an optional single leading `+` or `-`.
pub open spec fn spec_int_body(s: Seq<char>) -> Seq<char> {
    if s.len() > 0 && (s[0] == '+' || s[0] == '-') {
        s.drop_first()
    } else {
        s
    }
}

/// The signed value that `s` spells, before any range check.
pub open spec fn spec_int_val(s: Seq<char>) -> int {
    if s.len() > 0 && s[0] == '-' {
        -spec_digits_val(spec_int_body(s))
    } else {
        spec_digits_val(spec_int_body(s))
    }
}

/// Whether `s` is an optional sign followed by one or more digits,
/// spelling a value that fits in `i64`.
pub open spec fn spec_is_i64(s: Seq<char>) -> bool {
    &&& spec_int_body(s).len() > 0
    &&& forall|i: int|
        0 <= i < spec_int_body(s).len() ==> spec_is_digit(#[trigger] spec_int_body(s)[i])
    &&& i64::MIN <= spec_int_val(s) <= i64::MAX
}

/// A run of digits has a non-negative value.
proof fn lemma_digits_val_nonneg(s: Seq<char>)
    requires
        forall|j: int| 0 <= j < s.len() ==> spec_is_digit(#[trigger] s[j]),
    ensures
        spec_digits_val(s) >= 0,
    decreases s.len(),
{
    if s.len() > 0 {
        lemma_digits_val_nonneg(s.drop_last());
    }
}

/// Appending digits to a digit run never shrinks its value.
proof fn lemma_digits_val_prefix(s: Seq<char>, i: int)
    requires
        0 <= i <= s.len(),
        forall|j: int| 0 <= j < s.len() ==> spec_is_digit(#[trigger] s[j]),
    ensures
        spec_digits_val(s) >= spec_digits_val(s.take(i)),
    decreases s.len(),
{
    if i == s.len() {
        assert(s.take(i) =~= s);
    } else {
        assert(s.drop_last().take(i) =~= s.take(i));
        lemma_digits_val_prefix(s.drop_last(), i);
        lemma_digits_val_nonneg(s.drop_last());
    }
}

/// Parses a signed decimal integer: an optional single `+` or `-` followed by
/// one or more digits; `None` on an empty body, a stray character, or a value
/// out of the range of `i64`.
pub fn parse_i64(s: &str) -> (r: Option<i64>)
    ensures
        r is Some <==> spec_is_i64(s@),
        r is Some ==> r->0 as int == spec_int_val(s@),
{
    let v = str_to_chars(s);
    let n = v.len();
    let mut idx: usize = 0;
    let mut neg: bool = false;
    if n > 0 && (v[0] == '+' || v[0] == '-') {
        neg = v[0] == '-';
        idx = 1;
    }
    let ghost body = spec_int_body(s@);
    proof {
        assert(body =~= v@.skip(idx as int));
    }
    if idx >= n {
        return None;
    }
    // The largest magnitude that still fits, given the sign.
    let limit: u64 = if neg {
        9223372036854775808u64
    } else {
        9223372036854775807u64
    };
    let mut mag: u64 = 0;
    let mut i: usize = idx;
    while i < n
        invariant
            idx <= i <= n,
            idx < n,
            idx <= 1,
            n == v@.len(),
            v@ == s@,
            idx == 1 <==> n > 0 && (v@[0] == '+' || v@[0] == '-'),
            neg <==> idx == 1 && v@[0] == '-',
            body == v@.skip(idx as int),
            body == spec_int_body(s@),
            limit == (if neg {
                9223372036854775808u64
            } else {
                9223372036854775807u64
            }),
            forall|j: int| idx <= j < i ==> spec_is_digit(#[trigger] v@[j]),
            mag == spec_digits_val(body.take(i - idx)),
            mag <= limit,
        decreases n - i,
    {
        let c = v[i];
        let cu = c as u32;
        if cu < 48 || cu > 57 {
            proof {
                assert(spec_int_body(s@)[i - idx] == v@[i as int]);
                assert(!spec_is_digit(spec_int_body(s@)[i - idx]));
            }
            return None;
        }
        let d: u64 = (cu - 48) as u64;
        proof {
            assert(body.take(i + 1 - idx).drop_last() =~= body.take(i - idx));
            assert(body.take(i + 1 - idx).last() == v@[i as int]);
        }
        if mag > (limit - d) / 10 {
            proof {
                let q = ((limit - d) / 10) as int;
                assert(limit - d < 10 * (q + 1));
                assert(spec_digits_val(body.take(i + 1 - idx)) == mag * 10 + d);
                assert(mag * 10 >= (q + 1) * 10) by (nonlinear_arith)
                    requires
                        mag >= q + 1,
                ;
                assert(spec_digits_val(body.take(i + 1 - idx)) > limit);
                if forall|j: int| 0 <= j < body.len() ==> spec_is_digit(#[trigger] body[j]) {
                    lemma_digits_val_prefix(body, i + 1 - idx);
                    assert(spec_digits_val(spec_int_body(s@)) > limit);
                    assert(!spec_is_i64(s@));
                } else {
                    let bad = choose|j: int|
                        0 <= j < body.len() && !spec_is_digit(#[trigger] body[j]);
                    assert(!spec_is_digit(spec_int_body(s@)[bad]));
                }
            }
            return None;
        }
        mag = mag * 10 + d;
        i += 1;
    }
    proof {
        assert(body.take(n - idx) =~= body);
    }
    if neg {
        if mag == 9223372036854775808u64 {
            Some(i64::MIN)
        } else {
            Some(-(mag as i64))
        }
    } else {
        Some(mag as i64)
    }
}

// ---------------------------------------------------------------------------
// Byte sequences: lexicographic order, filtering
// ---------------------------------------------------------------------------

/// Lexicographic order on byte sequences, as `Ord` on strings compares them.
pub open spec fn lex_le(a: Seq<u8>, b: Seq<u8>) -> bool
    decreases a.len(),
{
    if a.len() == 0 {
        true
    } else if b.len() == 0 {
        false
    } else if a[0] < b[0] {
        true
    } else if a[0] > b[0] {
        false
    } else {
        lex_le(a.drop_first(), b.drop_first())
    }
}

/// Any two byte sequences are ordered one way or the other.
pub proof fn lemma_lex_le_total(a: Seq<u8>, b: Seq<u8>)
    ensures
        lex_le(a, b) || lex_le(b, a),
    decreases a.len(),
{
    if a.len() > 0 && b.len() > 0 && a[0] == b[0] {
        lemma_lex_le_total(a.drop_first(), b.drop_first());
    }
}

/// Lexicographic order is transitive.
pub proof fn lemma_lex_le_trans(a: Seq<u8>, b: Seq<u8>, c: Seq<u8>)
    requires
        lex_le(a, b),
        lex_le(b, c),
    ensures
        lex_le(a, c),
    decreases a.len(),
{
    if a.len() > 0 && b.len() > 0 && c.len() > 0 && a[0] == b[0] && b[0] == c[0] {
        lemma_lex_le_trans(a.drop_first(), b.drop_first(), c.drop_first());
    }
}

/// Compares two byte vectors lexicographically.
pub fn bytes_le(a: &Vec<u8>, b: &Vec<u8>) -> (r: bool)
    ensures
        r == lex_le(a@, b@),
{
    let mut i: usize = 0;
    proof {
        assert(a@.skip(0) =~= a@);
        assert(b@.skip(0) =~= b@);
    }
    while i < a.len() && i < b.len()
        invariant
            i <= a.len(),
            i <= b.len(),
            lex_le(a@, b@) == lex_le(a@.skip(i as int), b@.skip(i as int)),
        decreases a.len() - i,
    {
        let x = a[i];
        let y = b[i];
        if x < y {
            return true;
        }
        if x > y {
            return false;
        }
        proof {
            assert(a@.skip(i as int).drop_first() =~= a@.skip(i + 1));
            assert(b@.skip(i as int).drop_first() =~= b@.skip(i + 1));
        }
        i += 1;
    }
    proof {
        if i >= a.len() {
            assert(a@.skip(i as int).len() == 0);
        } else {
            assert(b@.skip(i as int).len() == 0);
            assert(a@.skip(i as int).len() > 0);
        }
    }
    i >= a.len()
}

// ---------------------------------------------------------------------------
// Searching characters
// ---------------------------------------------------------------------------

/// The index of the last occurrence of `c` in `s`, if any.
pub open spec fn spec_rfind(s: Seq<char>, c: char) -> Option<int>
    decreases s.len(),
{
    if s.len() == 0 {
        None
    } else if s.last() == c {
        Some(s.len() - 1)
    } else {
        spec_rfind(s.drop_last(), c)
    }
}

/// Finds the last occurrence of `c` in `v`.
pub fn rfind_char(v: &Vec<char>, c: char) -> (r: Option<usize>)
    ensures
        match r {
            Some(i) => spec_rfind(v@, c) == Some(i as int) && i < v@.len(),
            None => spec_rfind(v@, c) is None,
        },
{
    let mut i: usize = v.len();
    proof {
        assert(v@.take(v@.len() as int) =~= v@);
    }
    while i > 0
        invariant
            i <= v.len(),
            spec_rfind(v@, c) == spec_rfind(v@.take(i as int), c),
        decreases i,
    {
        proof {
            assert(v@.take(i as int).last() == v@[i - 1]);
            assert(v@.take(i as int).drop_last() =~= v@.take(i - 1));
        }
        if v[i - 1] == c {
            return Some(i - 1);
        }
        i -= 1;
    }
    None
}

/// Whether `t` stands inside `r` as contiguous text.
pub open spec fn spec_embeds(r: Seq<char>, t: Seq<char>) -> bool {
    exists|pre: Seq<char>, suf: Seq<char>| r == #[trigger] (pre + t + suf)
}

/// Exhibits the decomposition that makes `t` stand inside `r`.
pub proof fn lemma_embeds_intro(r: Seq<char>, t: Seq<char>, pre: Seq<char>, suf: Seq<char>)
    requires
        r == pre + t + suf,
    ensures
        spec_embeds(r, t),
{
    assert(r == pre + t + suf);
}

/// Text stays embedded when more is written around it.
pub proof fn lemma_embeds_extend(r: Seq<char>, t: Seq<char>, before: Seq<char>,
    after: Seq<char>)
    requires
        spec_embeds(r, t),
    ensures
        spec_embeds(before + r + after, t),
{
    let (pre, suf) = choose|pre: Seq<char>, suf: Seq<char>| r == #[trigger] (pre + t + suf);
    assert(before + r + after =~= (before + pre) + t + (suf + after));
    lemma_embeds_intro(before + r + after, t, before + pre, suf + after);
}

/// Looks for `pat` as a contiguous run inside `hay`; a position is only
/// claimed where the match holds.
pub fn find_sub(hay: &Vec<char>, pat: &Vec<char>) -> (r: Option<usize>)
    ensures
        r matches Some(k) ==> k + pat@.len() <= hay@.len() && hay@.subrange(k as int,
            k as int + pat@.len() as int) == pat@,
{
    let n = hay.len();
    let m = pat.len();
    if m > n {
        return None;
    }
    let mut k: usize = 0;
    while k <= n - m
        invariant
            m <= n,
            n == hay@.len(),
            m == pat@.len(),
            k <= n - m,
        decreases n - m - k,
    {
        let mut j: usize = 0;
        let mut matched: bool = true;
        while j < m
            invariant
                j <= m,
                k + m <= n,
                n == hay@.len(),
                m == pat@.len(),
                matched ==> forall|p: int| 0 <= p < j ==> hay@[k + p] == pat@[p],
            decreases m - j,
        {
            if hay[k + j] != pat[j] {
                matched = false;
            }
            j += 1;
        }
        if matched {
            proof {
                assert(hay@.subrange(k as int, k as int + m as int) =~= pat@);
            }
            return Some(k);
        }
        if k == n - m {
            return None;
        }
        k += 1;
    }
    None
}

/// Whether `v` holds the character `c`.
pub fn contains_char(v: &Vec<char>, c: char) -> (r: bool)
    ensures
        r == v@.contains(c),
{
    let mut i: usize = 0;
    while i < v.len()
        invariant
            i <= v.len(),
            forall|j: int| 0 <= j < i ==> v@[j] != c,
        decreases v.len() - i,
    {
        if v[i] == c {
            return true;
        }
        i += 1;
    }
    false
}

} // verus!
