//! Character-level helpers: Unicode white space, trimming, the cut of long texts
//! and decimal rendering of integers.

use vstd::prelude::*;
use vstd::std_specs::iter::IteratorSpec;

use crate::db::MAX_TEXT;

verus! {

/// Unicode `White_Space`: the characters `char::is_whitespace` accepts.
pub open spec fn is_ws(c: char) -> bool {
    let u = c as u32;
    ||| 0x09 <= u <= 0x0D
    ||| u == 0x20
    ||| u == 0x85
    ||| u == 0xA0
    ||| u == 0x1680
    ||| 0x2000 <= u <= 0x200A
    ||| u == 0x2028
    ||| u == 0x2029
    ||| u == 0x202F
    ||| u == 0x205F
    ||| u == 0x3000
}

pub fn is_whitespace_char(c: char) -> (r: bool)
    ensures
        r == is_ws(c),
{
    let u = c as u32;
    (0x09 <= u && u <= 0x0D) || u == 0x20 || u == 0x85 || u == 0xA0 || u == 0x1680 || (0x2000
        <= u && u <= 0x200A) || u == 0x2028 || u == 0x2029 || u == 0x202F || u == 0x205F || u
        == 0x3000
}

/// Whether the text has a character that is not white space.
pub open spec fn has_content(s: Seq<char>) -> bool {
    exists|i: int| 0 <= i < s.len() && !is_ws(#[trigger] s[i])
}

proof fn lemma_has_content_push(t: Seq<char>, c: char)
    ensures
        has_content(t.push(c)) == (has_content(t) || !is_ws(c)),
{
    if has_content(t) {
        let j = choose|j: int| 0 <= j < t.len() && !is_ws(#[trigger] t[j]);
        assert(t.push(c)[j] == t[j]);
    }
    if !is_ws(c) {
        assert(t.push(c)[t.len() as int] == c);
    }
    if has_content(t.push(c)) {
        let j = choose|j: int| 0 <= j < t.push(c).len() && !is_ws(#[trigger] t.push(c)[j]);
        if j < t.len() {
            assert(t[j] == t.push(c)[j]);
        }
    }
}

pub fn not_blank(s: &str) -> (r: bool)
    ensures
        r == has_content(s@),
{
    broadcast use vstd::string::group_string_axioms;

    let mut found = false;
    let mut it = s.chars();
    let ghost whole = s@;
    let ghost mut i: int = 0;
    assert(whole.skip(0) =~= whole);
    loop
        invariant
            it.remaining() == whole.skip(i),
            0 <= i <= whole.len(),
            found == has_content(whole.take(i)),
            whole == s@,
        ensures
            i == whole.len(),
            found == has_content(whole.take(i)),
        decreases whole.len() - i,
    {
        let ghost before = it.remaining();
        match it.next() {
            Some(c) => {
                assert(before.len() > 0);
                assert(c == whole[i]);
                proof { lemma_has_content_push(whole.take(i), c); }
                assert(whole.skip(i).drop_first() =~= whole.skip(i + 1));
                assert(whole.take(i + 1) =~= whole.take(i).push(c));
                if !is_whitespace_char(c) {
                    found = true;
                }
                proof { i = i + 1; }
            },
            None => {
                break;
            },
        }
    }
    assert(whole.take(i) =~= whole);
    found
}

/// `String::push` (std): appends one character.
#[verifier::external_body]
pub(crate) fn push_char(s: &mut String, c: char)
    ensures
        final(s)@ == old(s)@.push(c),
{
    s.push(c);
}

/// The text as stored in the index, and whether it was cut: texts longer
/// than `MAX_TEXT` characters keep their first `MAX_TEXT` characters.
pub open spec fn clip(s: Seq<char>) -> (Seq<char>, bool) {
    if s.len() > MAX_TEXT {
        (s.take(MAX_TEXT as int), true)
    } else {
        (s, false)
    }
}

/// Cuts a text to at most `MAX_TEXT` characters and says whether anything
/// was cut.
pub fn truncate_utf8(s: &str) -> (r: (String, bool))
    ensures
        r.0@ == clip(s@).0,
        r.1 == clip(s@).1,
{
    broadcast use vstd::string::group_string_axioms;

    let ghost whole = s@;
    let mut it = s.chars();
    let mut out = String::new();
    let mut used: usize = 0;
    assert(whole.skip(0) =~= whole);
    assert(whole.take(0) =~= Seq::<char>::empty());
    loop
        invariant
            it.remaining() == whole.skip(used as int),
            0 <= used <= whole.len(),
            used <= MAX_TEXT,
            out@ == whole.take(used as int),
            whole == s@,
        decreases whole.len() - used,
    {
        let ghost before = it.remaining();
        match it.next() {
            Some(c) => {
                assert(before.len() > 0);
                assert(c == whole[used as int]);
                if used == MAX_TEXT {
                    return (out, true);
                }
                assert(whole.skip(used as int).drop_first() =~= whole.skip(used + 1));
                assert(whole.take(used + 1) =~= whole.take(used as int).push(c));
                push_char(&mut out, c);
                used = used + 1;
            },
            None => {
                assert(whole.take(used as int) =~= whole);
                return (out, false);
            },
        }
    }
}

pub open spec fn is_bom(c: char) -> bool {
    c == '\u{feff}'
}

/// The text without its leading byte-order marks.
pub open spec fn drop_bom(s: Seq<char>) -> Seq<char>
    decreases s.len(),
{
    if s.len() > 0 && is_bom(s[0]) {
        drop_bom(s.drop_first())
    } else {
        s
    }
}

/// The text without its leading white space.
pub open spec fn trim_start(s: Seq<char>) -> Seq<char>
    decreases s.len(),
{
    if s.len() > 0 && is_ws(s[0]) {
        trim_start(s.drop_first())
    } else {
        s
    }
}

/// The text without its trailing white space.
pub open spec fn trim_end(s: Seq<char>) -> Seq<char>
    decreases s.len(),
{
    if s.len() > 0 && is_ws(s.last()) {
        trim_end(s.drop_last())
    } else {
        s
    }
}

/// What a line of a JSONL file holds: byte-order marks dropped at its
/// start, then white space trimmed at both ends.
pub open spec fn line_content(s: Seq<char>) -> Seq<char> {
    trim_end(trim_start(drop_bom(s)))
}

proof fn lemma_drop_bom(s: Seq<char>, k: int, i: int)
    requires
        0 <= i <= k <= s.len(),
        forall|j: int| 0 <= j < k ==> is_bom(#[trigger] s[j]),
        k == s.len() || !is_bom(s[k]),
    ensures
        drop_bom(s.skip(i)) == s.skip(k),
    decreases k - i,
{
    if i < k {
        assert(s.skip(i)[0] == s[i]);
        assert(s.skip(i).drop_first() =~= s.skip(i + 1));
        lemma_drop_bom(s, k, i + 1);
    } else {
        if k < s.len() {
            assert(s.skip(k)[0] == s[k]);
        }
    }
}

proof fn lemma_trim_start(s: Seq<char>, a: int, i: int)
    requires
        0 <= i <= a <= s.len(),
        forall|j: int| i <= j < a ==> is_ws(#[trigger] s[j]),
        a == s.len() || !is_ws(s[a]),
    ensures
        trim_start(s.skip(i)) == s.skip(a),
    decreases a - i,
{
    if i < a {
        assert(s.skip(i)[0] == s[i]);
        assert(s.skip(i).drop_first() =~= s.skip(i + 1));
        lemma_trim_start(s, a, i + 1);
    } else {
        if a < s.len() {
            assert(s.skip(a)[0] == s[a]);
        }
    }
}

proof fn lemma_trim_end(s: Seq<char>, a: int, b: int, e: int)
    requires
        0 <= a < b <= e <= s.len(),
        forall|j: int| b <= j < e ==> is_ws(#[trigger] s[j]),
        !is_ws(s[b - 1]),
    ensures
        trim_end(s.subrange(a, e)) == s.subrange(a, b),
    decreases e - b,
{
    if b < e {
        assert(s.subrange(a, e).last() == s[e - 1]);
        assert(s.subrange(a, e).drop_last() =~= s.subrange(a, e - 1));
        lemma_trim_end(s, a, b, e - 1);
    } else {
        assert(s.subrange(a, b).last() == s[b - 1]);
    }
}

/// The content of a JSONL line: byte-order marks dropped at the start,
/// white space trimmed at both ends. Empty when the line is blank.
pub fn line_text(line: &str) -> (r: String)
    ensures
        r@ == line_content(line@),
{
    trimmed(line, true)
}

/// The text with white space trimmed at both ends, as `str::trim` gives it.
pub fn trim_text(s: &str) -> (r: String)
    ensures
        r@ == trim_end(trim_start(s@)),
{
    trimmed(s, false)
}

fn trimmed(line: &str, skip_bom: bool) -> (r: String)
    ensures
        skip_bom ==> r@ == line_content(line@),
        !skip_bom ==> r@ == trim_end(trim_start(line@)),
{
    broadcast use vstd::string::group_string_axioms;

    let ghost s = line@;
    let mut it = line.chars();
    let mut out = String::new();
    let mut pending = String::new();
    // 0: inside the leading marks, 1: inside the leading white space, 2: in the text
    let mut phase: u8 = if skip_bom {
        0
    } else {
        1
    };
    let ghost mut i: int = 0;
    let ghost mut k: int = 0;
    let ghost mut a: int = 0;
    let ghost mut b: int = 0;
    assert(s.skip(0) =~= s);
    loop
        invariant
            s == line@,
            it.remaining() == s.skip(i),
            0 <= k <= i <= s.len(),
            forall|j: int| 0 <= j < k ==> is_bom(#[trigger] s[j]),
            phase <= 2,
            phase == 0 ==> k == i && out@.len() == 0 && pending@.len() == 0 && skip_bom,
            phase >= 1 ==> (skip_bom ==> k < i && !is_bom(s[k])),
            !skip_bom ==> k == 0,
            phase == 1 ==> out@.len() == 0 && pending@.len() == 0 && forall|j: int|
                k <= j < i ==> is_ws(#[trigger] s[j]),
            phase == 2 ==> {
                &&& k <= a < b <= i
                &&& forall|j: int| k <= j < a ==> is_ws(#[trigger] s[j])
                &&& !is_ws(s[a])
                &&& !is_ws(s[b - 1])
                &&& out@ == s.subrange(a, b)
                &&& pending@ == s.subrange(b, i)
                &&& forall|j: int| b <= j < i ==> is_ws(#[trigger] s[j])
            },
        ensures
            i == s.len(),
            phase == 0 ==> k == i && out@.len() == 0 && skip_bom,
            phase >= 1 ==> (skip_bom ==> k < i && !is_bom(s[k])),
            !skip_bom ==> k == 0,
            phase == 1 ==> out@.len() == 0 && forall|j: int| k <= j < i ==> is_ws(#[trigger] s[j]),
            phase == 2 ==> {
                &&& k <= a < b <= i
                &&& forall|j: int| k <= j < a ==> is_ws(#[trigger] s[j])
                &&& !is_ws(s[a])
                &&& !is_ws(s[b - 1])
                &&& out@ == s.subrange(a, b)
                &&& forall|j: int| b <= j < i ==> is_ws(#[trigger] s[j])
            },
        decreases s.len() - i,
    {
        let ghost before = it.remaining();
        match it.next() {
            Some(c) => {
                assert(before.len() > 0);
                assert(c == s[i]);
                assert(s.skip(i).drop_first() =~= s.skip(i + 1));
                let ws = is_whitespace_char(c);
                if phase == 0 && c == '\u{feff}' {
                    proof {
                        k = k + 1;
                    }
                } else if phase <= 1 && ws {
                    phase = 1;
                } else if phase <= 1 {
                    phase = 2;
                    push_char(&mut out, c);
                    proof {
                        a = i;
                        b = i + 1;
                        assert(out@ =~= s.subrange(a, b));
                        assert(pending@ =~= s.subrange(b, i + 1));
                    }
                } else if ws {
                    push_char(&mut pending, c);
                    proof {
                        assert(pending@ =~= s.subrange(b, i + 1));
                    }
                } else {
                    out.append(pending.as_str());
                    push_char(&mut out, c);
                    pending = String::new();
                    proof {
                        assert(out@ =~= s.subrange(a, i + 1));
                        b = i + 1;
                        assert(pending@ =~= s.subrange(b, i + 1));
                    }
                }
                proof {
                    i = i + 1;
                }
            },
            None => {
                break;
            },
        }
    }
    proof {
        if skip_bom {
            lemma_drop_bom(s, k, 0);
        }
        assert(s.skip(0) =~= s);
        if phase == 0 {
            assert(s.skip(k) =~= Seq::<char>::empty());
            assert(out@ =~= Seq::<char>::empty());
        } else if phase == 1 {
            lemma_trim_start(s, s.len() as int, k);
            assert(s.skip(s.len() as int) =~= Seq::<char>::empty());
            assert(out@ =~= Seq::<char>::empty());
        } else {
            lemma_trim_start(s, a, k);
            assert(s.skip(a) =~= s.subrange(a, s.len() as int));
            lemma_trim_end(s, a, b, s.len() as int);
        }
    }
    out
}

/// ASCII white space as `u8::is_ascii_whitespace` has it.
pub open spec fn is_ascii_ws_byte(b: u8) -> bool {
    b == 0x20 || b == 0x09 || b == 0x0A || b == 0x0C || b == 0x0D
}

/// Bytes that do not decide the shape of a JSON file: white space and the
/// bytes of a UTF-8 byte-order mark.
pub open spec fn skippable_byte(b: u8) -> bool {
    is_ascii_ws_byte(b) || b == 0xEF || b == 0xBB || b == 0xBF
}

/// The first byte of `buf` that is not skippable, if any.
pub fn first_meaningful(buf: &[u8]) -> (r: Option<u8>)
    ensures
        r is None ==> forall|j: int| 0 <= j < buf@.len() ==> skippable_byte(#[trigger] buf@[j]),
        r matches Some(b) ==> exists|i: int|
            0 <= i < buf@.len() && buf@[i] == b && !skippable_byte(b) && forall|j: int|
                0 <= j < i ==> skippable_byte(#[trigger] buf@[j]),
{
    let mut i: usize = 0;
    while i < buf.len()
        invariant
            0 <= i <= buf@.len(),
            forall|j: int| 0 <= j < i ==> skippable_byte(#[trigger] buf@[j]),
        decreases buf@.len() - i,
    {
        let b = buf[i];
        if !(b == 0x20 || b == 0x09 || b == 0x0A || b == 0x0C || b == 0x0D || b == 0xEF || b
            == 0xBB || b == 0xBF) {
            return Some(b);
        }
        i = i + 1;
    }
    None
}

/// ASCII letters to lower case; every other character unchanged.
pub open spec fn ascii_lower(c: char) -> char {
    if 'A' <= c <= 'Z' {
        ((c as u32) + 32) as char
    } else {
        c
    }
}

pub open spec fn lower_all(s: Seq<char>) -> Seq<char> {
    s.map_values(|c: char| ascii_lower(c))
}

fn ascii_lower_char(c: char) -> (r: char)
    ensures
        r == ascii_lower(c),
{
    if 'A' <= c && c <= 'Z' {
        ((c as u8) + 32) as char
    } else {
        c
    }
}

/// Whether two texts are equal once ASCII letters are lowered, as
/// `str::eq_ignore_ascii_case` compares them.
pub fn eq_ignore_ascii_case(x: &str, y: &str) -> (r: bool)
    ensures
        r == (lower_all(x@) == lower_all(y@)),
{
    broadcast use vstd::string::group_string_axioms;

    let ghost sx = x@;
    let ghost sy = y@;
    let mut ix = x.chars();
    let mut iy = y.chars();
    let ghost mut i: int = 0;
    assert(sx.skip(0) =~= sx);
    assert(sy.skip(0) =~= sy);
    loop
        invariant
            sx == x@,
            sy == y@,
            0 <= i <= sx.len(),
            0 <= i <= sy.len(),
            ix.remaining() == sx.skip(i),
            iy.remaining() == sy.skip(i),
            forall|j: int| 0 <= j < i ==> ascii_lower(#[trigger] sx[j]) == ascii_lower(sy[j]),
        decreases sx.len() - i,
    {
        let ghost bx = ix.remaining();
        let ghost by_ = iy.remaining();
        let cx = ix.next();
        let cy = iy.next();
        match (cx, cy) {
            (Some(a), Some(b)) => {
                assert(a == sx[i]);
                assert(b == sy[i]);
                assert(sx.skip(i).drop_first() =~= sx.skip(i + 1));
                assert(sy.skip(i).drop_first() =~= sy.skip(i + 1));
                if ascii_lower_char(a) != ascii_lower_char(b) {
                    assert(lower_all(sx)[i] != lower_all(sy)[i]);
                    return false;
                }
                proof {
                    i = i + 1;
                }
            },
            (None, None) => {
                assert(i == sx.len() && i == sy.len());
                assert(lower_all(sx) =~= lower_all(sy));
                return true;
            },
            _ => {
                assert(sx.len() != sy.len());
                assert(lower_all(sx).len() != lower_all(sy).len());
                return false;
            },
        }
    }
}

/// Whether two texts are equal.
pub fn str_equal(x: &str, y: &str) -> (r: bool)
    ensures
        r == (x@ == y@),
{
    broadcast use vstd::string::group_string_axioms;

    let ghost sx = x@;
    let ghost sy = y@;
    let mut ix = x.chars();
    let mut iy = y.chars();
    let ghost mut i: int = 0;
    assert(sx.skip(0) =~= sx);
    assert(sy.skip(0) =~= sy);
    loop
        invariant
            sx == x@,
            sy == y@,
            0 <= i <= sx.len(),
            0 <= i <= sy.len(),
            ix.remaining() == sx.skip(i),
            iy.remaining() == sy.skip(i),
            forall|j: int| 0 <= j < i ==> #[trigger] sx[j] == sy[j],
        decreases sx.len() - i,
    {
        let cx = ix.next();
        let cy = iy.next();
        match (cx, cy) {
            (Some(a), Some(b)) => {
                assert(a == sx[i]);
                assert(b == sy[i]);
                assert(sx.skip(i).drop_first() =~= sx.skip(i + 1));
                assert(sy.skip(i).drop_first() =~= sy.skip(i + 1));
                if a != b {
                    return false;
                }
                proof {
                    i = i + 1;
                }
            },
            (None, None) => {
                assert(sx =~= sy);
                return true;
            },
            _ => {
                return false;
            },
        }
    }
}

/// The character of decimal digit `d`.
pub open spec fn digit_char(d: int) -> char {
    ((d + 48) as u8) as char
}

/// The decimal digits of `n`, most significant first, without leading zeros.
pub open spec fn decimal(n: nat) -> Seq<char>
    decreases n,
{
    if n < 10 {
        seq![digit_char(n as int)]
    } else {
        decimal(n / 10).push(digit_char((n % 10) as int))
    }
}

/// The decimal text of an integer: a minus sign before negative ones.
pub open spec fn signed_decimal(n: int) -> Seq<char> {
    if n < 0 {
        seq!['-'] + decimal((-n) as nat)
    } else {
        decimal(n as nat)
    }
}

/// Appends the decimal digits of `n`.
pub fn push_decimal(out: &mut String, n: u64)
    ensures
        final(out)@ == old(out)@ + decimal(n as nat),
    decreases n,
{
    if n >= 10 {
        push_decimal(out, n / 10);
    }
    let d = ((n % 10) as u8 + 48) as char;
    push_char(out, d);
    proof {
        if n < 10 {
            assert(decimal(n as nat) =~= seq![digit_char(n as int)]);
        }
        assert(final(out)@ =~= old(out)@ + decimal(n as nat));
    }
}

/// Appends the decimal text of `n`.
pub fn push_signed(out: &mut String, n: i64)
    ensures
        final(out)@ == old(out)@ + signed_decimal(n as int),
{
    if n < 0 {
        push_char(out, '-');
        let m: u64 = (0i128 - n as i128) as u64;
        push_decimal(out, m);
        proof {
            assert(final(out)@ =~= old(out)@ + (seq!['-'] + decimal((-n) as nat)));
        }
    } else {
        push_decimal(out, n as u64);
    }
}

/// `prefix` followed by the decimal text of `n`.
pub fn prefixed_number(prefix: &str, n: i64) -> (r: String)
    ensures
        r@ == prefix@ + signed_decimal(n as int),
{
    let mut out = prefix.to_owned();
    push_signed(&mut out, n);
    out
}

/// Lexicographic order of texts by character code, as `str` compares them
/// (UTF-8 keeps the order of code points).
pub open spec fn lex_less(a: Seq<char>, b: Seq<char>) -> bool
    decreases a.len(),
{
    if a.len() == 0 {
        b.len() > 0
    } else if b.len() == 0 {
        false
    } else if a[0] != b[0] {
        (a[0] as u32) < (b[0] as u32)
    } else {
        lex_less(a.drop_first(), b.drop_first())
    }
}

/// Whether `x` sorts strictly before `y`.
pub fn str_less(x: &str, y: &str) -> (r: bool)
    ensures
        r == lex_less(x@, y@),
{
    broadcast use vstd::string::group_string_axioms;

    let ghost sx = x@;
    let ghost sy = y@;
    let mut ix = x.chars();
    let mut iy = y.chars();
    let ghost mut i: int = 0;
    assert(sx.skip(0) =~= sx);
    assert(sy.skip(0) =~= sy);
    loop
        invariant
            sx == x@,
            sy == y@,
            0 <= i <= sx.len(),
            0 <= i <= sy.len(),
            ix.remaining() == sx.skip(i),
            iy.remaining() == sy.skip(i),
            lex_less(sx, sy) == lex_less(sx.skip(i), sy.skip(i)),
        decreases sx.len() - i,
    {
        let cx = ix.next();
        let cy = iy.next();
        match (cx, cy) {
            (Some(a), Some(b)) => {
                assert(a == sx[i]);
                assert(b == sy[i]);
                assert(sx.skip(i).drop_first() =~= sx.skip(i + 1));
                assert(sy.skip(i).drop_first() =~= sy.skip(i + 1));
                assert(sx.skip(i)[0] == a);
                assert(sy.skip(i)[0] == b);
                if a != b {
                    return (a as u32) < (b as u32);
                }
                proof {
                    i = i + 1;
                }
            },
            (None, Some(_)) => {
                assert(sx.skip(i).len() == 0);
                return true;
            },
            _ => {
                assert(sy.skip(i).len() == 0);
                return false;
            },
        }
    }
}

/// Appends the decimal digits of `n` to a character vector.
fn push_digits(out: &mut Vec<char>, n: u64)
    ensures
        final(out)@ == old(out)@ + decimal(n as nat),
    decreases n,
{
    if n >= 10 {
        push_digits(out, n / 10);
    }
    let d = ((n % 10) as u8 + 48) as char;
    out.push(d);
    proof {
        if n < 10 {
            assert(decimal(n as nat) =~= seq![digit_char(n as int)]);
        }
        assert(final(out)@ =~= old(out)@ + decimal(n as nat));
    }
}

/// The narrow no-break space that separates groups of three digits.
pub open spec fn thin_space() -> char {
    '\u{202f}'
}

/// The first `i` digits of `s`, with a thin space before every digit that
/// starts a group of three counted from the right.
pub open spec fn grouped(s: Seq<char>, i: nat) -> Seq<char>
    decreases i,
{
    if i == 0 {
        Seq::empty()
    } else {
        let k = i - 1;
        let sep = if k > 0 && (s.len() - k) % 3 == 0 {
            seq![thin_space()]
        } else {
            Seq::empty()
        };
        grouped(s, k as nat) + sep + seq![s[k]]
    }
}

/// An integer in decimal with its digits grouped by three.
pub open spec fn grouped_int(n: int) -> Seq<char> {
    let digits = decimal(if n < 0 {
        (-n) as nat
    } else {
        n as nat
    });
    let g = grouped(digits, digits.len());
    if n < 0 {
        seq!['-'] + g
    } else {
        g
    }
}

/// The text with its thin spaces taken out.
pub open spec fn without_spaces(s: Seq<char>) -> Seq<char>
    decreases s.len(),
{
    if s.len() == 0 {
        Seq::empty()
    } else {
        without_spaces(s.drop_last()) + if s.last() == thin_space() {
            Seq::<char>::empty()
        } else {
            seq![s.last()]
        }
    }
}

proof fn lemma_without_concat(a: Seq<char>, b: Seq<char>)
    ensures
        without_spaces(a + b) == without_spaces(a) + without_spaces(b),
    decreases b.len(),
{
    if b.len() == 0 {
        assert(a + b =~= a);
        assert(without_spaces(a) + without_spaces(b) =~= without_spaces(a));
    } else {
        lemma_without_concat(a, b.drop_last());
        assert((a + b).drop_last() =~= a + b.drop_last());
        assert((a + b).last() == b.last());
        let tail = if b.last() == thin_space() {
            Seq::<char>::empty()
        } else {
            seq![b.last()]
        };
        assert(without_spaces(a) + without_spaces(b.drop_last()) + tail =~= without_spaces(a) + (without_spaces(
            b.drop_last(),
        ) + tail));
    }
}

proof fn lemma_decimal_digits(n: nat)
    ensures
        forall|i: int| 0 <= i < decimal(n).len() ==> #[trigger] decimal(n)[i] != thin_space(),
    decreases n,
{
    if n < 10 {
        let c = digit_char(n as int);
        assert((c as u32) < 58);
    } else {
        lemma_decimal_digits(n / 10);
        let c = digit_char((n % 10) as int);
        assert((c as u32) < 58);
        let d = decimal(n);
        assert forall|i: int| 0 <= i < d.len() implies #[trigger] d[i] != thin_space() by {
            if i < d.len() - 1 {
                assert(d[i] == decimal(n / 10)[i]);
            }
        }
    }
}

proof fn lemma_grouped_digits(s: Seq<char>, i: nat)
    requires
        i <= s.len(),
        forall|j: int| 0 <= j < s.len() ==> #[trigger] s[j] != thin_space(),
    ensures
        without_spaces(grouped(s, i)) == s.take(i as int),
    decreases i,
{
    if i == 0 {
        assert(s.take(0) =~= Seq::<char>::empty());
    } else {
        let k = (i - 1) as nat;
        lemma_grouped_digits(s, k);
        let sep = if k > 0 && (s.len() - k) % 3 == 0 {
            seq![thin_space()]
        } else {
            Seq::empty()
        };
        lemma_without_concat(grouped(s, k) + sep, seq![s[k as int]]);
        lemma_without_concat(grouped(s, k), sep);
        assert(without_spaces(sep) =~= Seq::<char>::empty()) by {
            reveal_with_fuel(without_spaces, 2);
            if sep.len() > 0 {
                assert(sep.drop_last() =~= Seq::<char>::empty());
                assert(sep.last() == thin_space());
            }
        }
        assert(without_spaces(seq![s[k as int]]) =~= seq![s[k as int]]) by {
            reveal_with_fuel(without_spaces, 2);
            assert(seq![s[k as int]].drop_last() =~= Seq::<char>::empty());
        }
        assert(s.take(i as int) =~= s.take(k as int).push(s[k as int]));
    }
}

/// Taking the thin spaces out of a grouped integer gives its plain decimal
/// text back.
pub proof fn lemma_grouped_round_trip(n: int)
    ensures
        without_spaces(grouped_int(n)) == signed_decimal(n),
{
    let a: nat = if n < 0 {
        (-n) as nat
    } else {
        n as nat
    };
    let digits = decimal(a);
    lemma_decimal_digits(a);
    lemma_grouped_digits(digits, digits.len());
    assert(digits.take(digits.len() as int) =~= digits);
    if n < 0 {
        lemma_without_concat(seq!['-'], grouped(digits, digits.len()));
        assert(without_spaces(seq!['-']) =~= seq!['-']) by {
            reveal_with_fuel(without_spaces, 2);
            assert(seq!['-'].drop_last() =~= Seq::<char>::empty());
            assert(seq!['-'].last() != thin_space());
        }
    }
}

/// Renders an integer with its digits grouped by three, separated by thin
/// spaces.
pub fn fmt_int(n: i64) -> (r: String)
    requires
        n > i64::MIN,
    ensures
        r@ == grouped_int(n as int),
{
    let a: u64 = if n < 0 {
        (0 - n) as u64
    } else {
        n as u64
    };
    let mut digits: Vec<char> = Vec::new();
    push_digits(&mut digits, a);
    let ghost ds = decimal(a as nat);
    assert(digits@ =~= ds);
    let len = digits.len();
    let mut out = String::new();
    let mut i: usize = 0;
    assert(grouped(ds, 0) =~= out@);
    while i < len
        invariant
            digits@ == ds,
            len == ds.len(),
            0 <= i <= len,
            out@ == grouped(ds, i as nat),
        decreases len - i,
    {
        let ghost before = out@;
        if i > 0 && (len - i) % 3 == 0 {
            push_char(&mut out, '\u{202f}');
        }
        push_char(&mut out, digits[i]);
        proof {
            assert(out@ =~= grouped(ds, (i + 1) as nat));
        }
        i = i + 1;
    }
    if n < 0 {
        let mut r = String::new();
        push_char(&mut r, '-');
        r.append(out.as_str());
        proof {
            assert(r@ =~= seq!['-'] + grouped(ds, ds.len()));
        }
        r
    } else {
        out
    }
}

} // verus!
