//! Text helpers: decimal and hexadecimal rendering.

use vstd::prelude::*;
use vstd::string::*;

verus! {

/// The decimal digit `d` as a character.
pub open spec fn digit_char(d: nat) -> char {
    (48 + d) as char
}

/// `n` in decimal, without leading zeros.
pub open spec fn decimal_text(n: nat) -> Seq<char>
    decreases n,
{
    if n < 10 {
        seq![digit_char(n)]
    } else {
        decimal_text(n / 10).push(digit_char(n % 10))
    }
}

/// `String::push` appends one character.
pub assume_specification[ String::push ](s: &mut String, c: char)
    ensures
        final(s)@ == old(s)@.push(c),
;

/// The character of a decimal digit.
pub fn digit(d: u8) -> (c: char)
    requires
        d < 10,
    ensures
        c == digit_char(d as nat),
{
    let code: u8 = 48 + d;
    code as char
}

/// `n` in decimal.
pub fn decimal(n: u128) -> (r: String)
    ensures
        r@ == decimal_text(n as nat),
    decreases n,
{
    if n < 10 {
        let mut s = String::new();
        s.push(digit(n as u8));
        assert(s@ =~= seq![digit_char(n as nat)]);
        s
    } else {
        let mut s = decimal(n / 10);
        s.push(digit((n % 10) as u8));
        s
    }
}

/// Appends `n` in decimal to `s`.
pub fn push_decimal(s: &mut String, n: u128)
    ensures
        final(s)@ == old(s)@ + decimal_text(n as nat),
{
    let d = decimal(n);
    s.append(d.as_str());
}

/// The contents of a list of texts.
pub open spec fn texts(list: Seq<String>) -> Seq<Seq<char>> {
    list.map_values(|s: String| s@)
}

/// One more text at the end of a list.
pub proof fn lemma_texts_push(list: Seq<String>, s: String)
    ensures
        texts(list.push(s)) == texts(list).push(s@),
{
    assert(texts(list.push(s)) =~= texts(list).push(s@));
}

/// `s` with a backslash in front of each quotation mark and backslash.
pub open spec fn escaped(s: Seq<char>) -> Seq<char>
    decreases s.len(),
{
    if s.len() == 0 {
        s
    } else if s.last() == '"' || s.last() == '\\' {
        escaped(s.drop_last()).push('\\').push(s.last())
    } else {
        escaped(s.drop_last()).push(s.last())
    }
}

/// The quoted items, separated by commas.
pub open spec fn quoted_items(items: Seq<Seq<char>>) -> Seq<char>
    decreases items.len(),
{
    if items.len() == 0 {
        Seq::empty()
    } else {
        let quoted = "\""@ + escaped(items.last()) + "\""@;
        if items.len() == 1 {
            quoted
        } else {
            quoted_items(items.drop_last()) + ", "@ + quoted
        }
    }
}

/// A list of texts in square brackets.
pub open spec fn list_text(items: Seq<Seq<char>>) -> Seq<char> {
    "["@ + quoted_items(items) + "]"@
}

fn push_escaped(out: &mut String, s: &str)
    ensures
        final(out)@ == old(out)@ + escaped(s@),
{
    let n: usize = s.unicode_len();
    let mut i: usize = 0;
    let ghost start = out@;
    assert(s@.take(0) =~= Seq::empty());
    assert(start + escaped(s@.take(0)) =~= start);
    while i < n
        invariant
            i <= n,
            n == s@.len(),
            out@ == start + escaped(s@.take(i as int)),
        decreases n - i,
    {
        let c = s.get_char(i);
        let ghost before = out@;
        if c == '"' || c == '\\' {
            out.push('\\');
        }
        out.push(c);
        proof {
            let t = s@.take(i + 1);
            assert(t.drop_last() =~= s@.take(i as int));
            assert(t.last() == c);
            assert(out@ =~= start + escaped(t));
        }
        i = i + 1;
    }
    assert(s@.take(n as int) =~= s@);
}

/// Renders a list of texts in square brackets.
pub fn render_list(items: &Vec<String>) -> (r: String)
    ensures
        r@ == list_text(texts(items@)),
{
    let mut out = "[".to_owned();
    let mut i: usize = 0;
    let ghost all = texts(items@);
    assert(all.take(0) =~= Seq::empty());
    assert("["@ + quoted_items(all.take(0)) =~= "["@);
    while i < items.len()
        invariant
            i <= items.len(),
            all == texts(items@),
            out@ == "["@ + quoted_items(all.take(i as int)),
        decreases items.len() - i,
    {
        let ghost before = all.take(i as int);
        if i > 0 {
            out.append(", ");
        }
        out.append("\"");
        push_escaped(&mut out, items[i].as_str());
        out.append("\"");
        proof {
            let t = all.take(i + 1);
            assert(t.drop_last() =~= before);
            assert(t.last() == items@[i as int]@);
            assert(out@ =~= "["@ + quoted_items(t));
        }
        i = i + 1;
    }
    assert(all.take(i as int) =~= all);
    out.append("]");
    out
}

/// The items one behind the other, with `sep` between them.
pub open spec fn joined_items(items: Seq<Seq<char>>, sep: Seq<char>) -> Seq<char>
    decreases items.len(),
{
    if items.len() == 0 {
        Seq::empty()
    } else if items.len() == 1 {
        items[0]
    } else {
        joined_items(items.drop_last(), sep) + sep + items.last()
    }
}

/// Joins the items with `sep` between them.
pub fn join_items(items: &Vec<String>, sep: &str) -> (r: String)
    ensures
        r@ == joined_items(texts(items@), sep@),
{
    let mut out = String::new();
    let mut i: usize = 0;
    let ghost all = texts(items@);
    assert(all.take(0) =~= Seq::empty());
    while i < items.len()
        invariant
            i <= items.len(),
            all == texts(items@),
            out@ == joined_items(all.take(i as int), sep@),
        decreases items.len() - i,
    {
        if i > 0 {
            out.append(sep);
        }
        out.append(items[i].as_str());
        proof {
            let t = all.take(i + 1);
            assert(t.drop_last() =~= all.take(i as int));
            assert(t.last() == items@[i as int]@);
            assert(out@ =~= joined_items(t, sep@));
        }
        i = i + 1;
    }
    assert(all.take(i as int) =~= all);
    out
}

/// Whether every character is a decimal digit.
pub open spec fn all_digits(s: Seq<char>) -> bool {
    forall|i: int| 0 <= i < s.len() ==> '0' <= #[trigger] s[i] <= '9'
}

/// The number that decimal digits spell.
pub open spec fn digits_value(s: Seq<char>) -> nat
    decreases s.len(),
{
    if s.len() == 0 {
        0
    } else {
        digits_value(s.drop_last()) * 10 + (s.last() as nat - 48) as nat
    }
}

/// The number that a text stands for: digits, with an optional plus sign in
/// front.
pub open spec fn parsed_number(s: Seq<char>) -> Option<nat> {
    let body = if s.len() > 0 && s[0] == '+' {
        s.drop_first()
    } else {
        s
    };
    if body.len() > 0 && all_digits(body) {
        Some(digits_value(body))
    } else {
        None
    }
}

/// The number that a text stands for, where it is at most `max`.
pub open spec fn parsed_up_to(s: Seq<char>, max: nat) -> Option<nat> {
    match parsed_number(s) {
        Some(n) if n <= max => Some(n),
        _ => None,
    }
}

/// `str::parse::<u16>`: an optional plus sign and digits, no larger than
/// `u16::MAX`; nothing for every other text.
#[verifier::external_body]
pub(crate) fn parse_u16(s: &str) -> (r: Option<u16>)
    ensures
        match r {
            Some(n) => parsed_up_to(s@, u16::MAX as nat) == Some(n as nat),
            None => parsed_up_to(s@, u16::MAX as nat) is None,
        },
{
    s.parse::<u16>().ok()
}

/// `str::parse::<u64>`: an optional plus sign and digits, no larger than
/// `u64::MAX`; nothing for every other text.
#[verifier::external_body]
pub(crate) fn parse_u64(s: &str) -> (r: Option<u64>)
    ensures
        match r {
            Some(n) => parsed_up_to(s@, u64::MAX as nat) == Some(n as nat),
            None => parsed_up_to(s@, u64::MAX as nat) is None,
        },
{
    s.parse::<u64>().ok()
}

/// `str::parse::<u128>`: an optional plus sign and digits, no larger than
/// `u128::MAX`; nothing for every other text.
#[verifier::external_body]
pub(crate) fn parse_u128(s: &str) -> (r: Option<u128>)
    ensures
        match r {
            Some(n) => parsed_up_to(s@, u128::MAX as nat) == Some(n as nat),
            None => parsed_up_to(s@, u128::MAX as nat) is None,
        },
{
    s.parse::<u128>().ok()
}

/// Whether two texts are the same.
pub fn same_text(a: &str, b: &str) -> (r: bool)
    ensures
        r == (a@ == b@),
{
    let n: usize = a.unicode_len();
    if n != b.unicode_len() {
        return false;
    }
    let mut i: usize = 0;
    while i < n
        invariant
            i <= n,
            n == a@.len(),
            n == b@.len(),
            forall|k: int| 0 <= k < i ==> #[trigger] a@[k] == b@[k],
        decreases n - i,
    {
        if a.get_char(i) != b.get_char(i) {
            return false;
        }
        i = i + 1;
    }
    assert(a@ =~= b@);
    true
}

/// Decimal digits spell the number that they were made from.
pub proof fn decimal_text_parses_back(n: nat)
    ensures
        decimal_text(n).len() > 0,
        all_digits(decimal_text(n)),
        digits_value(decimal_text(n)) == n,
        parsed_number(decimal_text(n)) == Some(n),
    decreases n,
{
    let t = decimal_text(n);
    if n >= 10 {
        decimal_text_parses_back(n / 10);
        assert(t.drop_last() =~= decimal_text(n / 10));
        assert(t.last() == digit_char(n % 10));
        assert(forall|i: int| 0 <= i < t.len() - 1 ==> t[i] == t.drop_last()[i]);
    } else {
        assert(t.drop_last() =~= Seq::empty());
        assert(digits_value(Seq::empty()) == 0);
    }
    assert(t[0] != '+');
}

/// `str::split_once`: the parts around the first `sep`.
#[verifier::external_body]
pub(crate) fn split_once<'a>(s: &'a str, sep: char) -> (r: Option<(&'a str, &'a str)>)
    ensures
        match r {
            Some((a, b)) => s@ == a@.push(sep) + b@ && !a@.contains(sep),
            None => !s@.contains(sep),
        },
{
    s.split_once(sep)
}

/// The hexadecimal digit of value `n`, in lower case.
pub open spec fn hex_digit(n: nat) -> char {
    if n < 10 {
        (48 + n) as char
    } else {
        (87 + n) as char
    }
}

/// `bytes` in lower-case hexadecimal, two digits for each byte.
pub open spec fn hex_text(bytes: Seq<u8>) -> Seq<char> {
    Seq::new(
        2 * bytes.len(),
        |i: int|
            hex_digit(
                if i % 2 == 0 {
                    bytes[i / 2] as nat / 16
                } else {
                    bytes[i / 2] as nat % 16
                },
            ),
    )
}

/// The value of a hexadecimal digit of either case.
pub open spec fn hex_value(c: char) -> Option<nat> {
    if '0' <= c <= '9' {
        Some((c as nat - 48) as nat)
    } else if 'a' <= c <= 'f' {
        Some((c as nat - 87) as nat)
    } else if 'A' <= c <= 'F' {
        Some((c as nat - 55) as nat)
    } else {
        None
    }
}

/// Whether `s` is made of pairs of hexadecimal digits.
pub open spec fn is_hex(s: Seq<char>) -> bool {
    s.len() % 2 == 0 && forall|i: int| 0 <= i < s.len() ==> hex_value(#[trigger] s[i]) is Some
}

/// The bytes that pairs of hexadecimal digits stand for.
pub open spec fn hex_bytes(s: Seq<char>) -> Seq<u8> {
    Seq::new(
        s.len() / 2,
        |i: int| (hex_value(s[2 * i])->0 * 16 + hex_value(s[2 * i + 1])->0) as u8,
    )
}

/// `hex::encode`: two lower-case digits for each byte.
#[verifier::external_body]
pub(crate) fn hex_encode(bytes: &[u8]) -> (r: String)
    ensures
        r@ == hex_text(bytes@),
{
    hex::encode(bytes)
}

/// What the error of `hex::decode` says about a text that is not hexadecimal.
pub uninterp spec fn hex_complaint(text: Seq<char>) -> Seq<char>;

/// Whether all characters are ASCII.
pub open spec fn is_ascii_text(s: Seq<char>) -> bool {
    forall|i: int| 0 <= i < s.len() ==> ((#[trigger] s[i]) as nat) < 128
}

/// Whether a character stands between quotes as it is: visible ASCII or a blank,
/// but no quote and no backslash.
pub open spec fn is_quoted_plainly(c: char) -> bool {
    ' ' <= c <= '~' && c != '\'' && c != '"' && c != '\\'
}

/// Whether a message complains about a text of ASCII characters: about its length,
/// or else about the first character that is no digit.
pub open spec fn complains_about(text: Seq<char>, message: Seq<char>) -> bool {
    if text.len() % 2 != 0 {
        message == "Odd number of digits"@
    } else {
        forall|k: int|
            0 <= k < text.len() && hex_value(#[trigger] text[k]) is None && is_quoted_plainly(
                text[k],
            ) && (forall|j: int| 0 <= j < k ==> hex_value(#[trigger] text[j]) is Some) ==> message
                == "Invalid character '"@ + seq![text[k]] + "' at position "@ + decimal_text(
                k as nat,
            )
    }
}

/// `hex::decode`: the bytes of a text of digit pairs of either case, and for every
/// other text what the error says, which depends on the text alone. In ASCII it
/// names an odd length, or the first character that is no digit and its position.
#[verifier::external_body]
pub(crate) fn hex_decode(text: &str) -> (r: Result<Vec<u8>, String>)
    ensures
        match r {
            Ok(bytes) => is_hex(text@) && bytes@ == hex_bytes(text@),
            Err(message) => {
                &&& !is_hex(text@)
                &&& message@ == hex_complaint(text@)
                &&& is_ascii_text(text@) ==> complains_about(text@, message@)
            },
        },
{
    match hex::decode(text) {
        Ok(bytes) => Ok(bytes),
        Err(e) => Err(e.to_string()),
    }
}

/// Decoding what was encoded gives the bytes back.
pub proof fn hex_round_trips(bytes: Seq<u8>)
    ensures
        is_hex(hex_text(bytes)),
        hex_bytes(hex_text(bytes)) == bytes,
{
    let s = hex_text(bytes);
    assert forall|i: int| 0 <= i < s.len() implies hex_value(#[trigger] s[i]) is Some by {
        assert(0 <= i / 2 < bytes.len());
    }
    assert forall|i: int| 0 <= i < bytes.len() implies hex_bytes(s)[i] == bytes[i] by {
        assert((2 * i) / 2 == i && (2 * i + 1) / 2 == i);
        assert((2 * i) % 2 == 0 && (2 * i + 1) % 2 == 1);
        let b = bytes[i] as nat;
        assert(hex_value(s[2 * i]) == Some(b / 16));
        assert(hex_value(s[2 * i + 1]) == Some(b % 16));
    }
    assert(hex_bytes(s) =~= bytes);
}

/// One more digit behind a number makes ten times the number and that digit; the first
/// digit is the number's own.
pub proof fn digits_are_those_of_the_number(n: nat, d: nat)
    requires
        d < 10,
    ensures
        decimal_text(d) == seq![('0' as nat + d) as char],
        n > 0 ==> decimal_text(10 * n + d) == decimal_text(n).push(('0' as nat + d) as char),
{
    assert((10 * n + d) / 10 == n);
    assert((10 * n + d) % 10 == d);
}

/// A number may have a plus sign in front and zeros in front of its digits, and nothing
/// but digits behind.
pub proof fn numbers_are_read_by_their_digits(s: Seq<char>, n: nat)
    ensures
        parsed_number(seq!['+'] + decimal_text(n)) == Some(n),
        parsed_number(seq!['0'] + decimal_text(n)) == Some(n),
        parsed_number(Seq::empty()) is None,
        (exists|i: int| 1 <= i < s.len() && !('0' <= #[trigger] s[i] <= '9')) ==> parsed_number(s)
            is None,
{
    decimal_text_parses_back(n);
    let t = decimal_text(n);
    let plus = seq!['+'] + t;
    assert(plus.drop_first() =~= t);
    let zero = seq!['0'] + t;
    assert(zero[0] == '0');
    lemma_zero_in_front(t);
    if exists|i: int| 1 <= i < s.len() && !('0' <= #[trigger] s[i] <= '9') {
        let i = choose|i: int| 1 <= i < s.len() && !('0' <= #[trigger] s[i] <= '9');
        assert(s.drop_first()[i - 1] == s[i]);
    }
}

proof fn lemma_zero_in_front(t: Seq<char>)
    requires
        all_digits(t),
    ensures
        all_digits(seq!['0'] + t),
        digits_value(seq!['0'] + t) == digits_value(t),
    decreases t.len(),
{
    let z = seq!['0'] + t;
    if t.len() > 0 {
        lemma_zero_in_front(t.drop_last());
        assert(z.drop_last() =~= seq!['0'] + t.drop_last());
        assert(z.last() == t.last());
    } else {
        assert(z.drop_last() =~= Seq::empty());
        assert(digits_value(z.drop_last()) == 0);
    }
}

/// Each byte is written as two digits, the upper half first, and the letters are lower
/// case.
pub proof fn hex_digits_are_halves(bytes: Seq<u8>, i: int)
    requires
        0 <= i < bytes.len(),
    ensures
        hex_text(bytes).len() == 2 * bytes.len(),
        ({
            let upper = hex_text(bytes)[2 * i];
            let below = hex_text(bytes)[2 * i + 1];
            let high = bytes[i] as int / 16;
            let low = bytes[i] as int % 16;
            &&& high < 10 ==> upper as int - '0' as int == high
            &&& high >= 10 ==> upper as int - 'a' as int == high - 10
            &&& low < 10 ==> below as int - '0' as int == low
            &&& low >= 10 ==> below as int - 'a' as int == low - 10
        }),
{
    assert((2 * i) / 2 == i && (2 * i + 1) / 2 == i);
    assert((2 * i) % 2 == 0 && (2 * i + 1) % 2 == 1);
}

/// Texts are escaped character by character; only a quotation mark and a backslash get
/// a backslash in front.
pub proof fn characters_are_escaped_one_by_one(a: Seq<char>, b: Seq<char>, c: char)
    ensures
        escaped(a + b) == escaped(a) + escaped(b),
        escaped(seq![c]) == if c == '"' || c == '\\' {
            seq!['\\', c]
        } else {
            seq![c]
        },
    decreases b.len(),
{
    let none = Seq::<char>::empty();
    assert(seq![c].drop_last() =~= none);
    assert(escaped(none) == none);
    assert(escaped(seq![c]) =~= if c == '"' || c == '\\' {
        seq!['\\', c]
    } else {
        seq![c]
    });
    if b.len() == 0 {
        assert(a + b =~= a);
        assert(escaped(a) + escaped(b) =~= escaped(a));
    } else {
        characters_are_escaped_one_by_one(a, b.drop_last(), c);
        assert((a + b).drop_last() =~= a + b.drop_last());
        assert(escaped(a + b) =~= escaped(a) + escaped(b));
    }
}

/// Lists are written item by item, with the separator between two of them and nowhere
/// else.
pub proof fn lists_are_written_item_by_item(
    a: Seq<Seq<char>>,
    b: Seq<Seq<char>>,
    item: Seq<char>,
    sep: Seq<char>,
)
    ensures
        joined_items(Seq::empty(), sep) == Seq::<char>::empty(),
        joined_items(seq![item], sep) == item,
        a.len() > 0 && b.len() > 0 ==> joined_items(a + b, sep) == joined_items(a, sep) + sep
            + joined_items(b, sep),
        quoted_items(seq![item]) == "\""@ + escaped(item) + "\""@,
        a.len() > 0 && b.len() > 0 ==> quoted_items(a + b) == quoted_items(a) + ", "@
            + quoted_items(b),
        list_text(Seq::empty()) == "["@ + "]"@,
        list_text(seq![item]) == "["@ + "\""@ + escaped(item) + "\""@ + "]"@,
    decreases b.len(),
{
    assert(list_text(Seq::empty()) =~= "["@ + "]"@);
    assert(quoted_items(seq![item]) == "\""@ + escaped(item) + "\""@);
    assert(list_text(seq![item]) =~= "["@ + "\""@ + escaped(item) + "\""@ + "]"@);
    if a.len() > 0 && b.len() > 0 {
        let all = a + b;
        assert(all.drop_last() =~= a + b.drop_last());
        assert(all.last() == b.last());
        if b.len() == 1 {
            assert(b.drop_last() =~= Seq::empty());
            assert(a + b.drop_last() =~= a);
            assert(joined_items(b, sep) == b[0]);
        } else {
            lists_are_written_item_by_item(a, b.drop_last(), item, sep);
            assert(joined_items(all, sep) =~= joined_items(a, sep) + sep + joined_items(b, sep));
            assert(quoted_items(all) =~= quoted_items(a) + ", "@ + quoted_items(b));
        }
    }
}

} // verus!
