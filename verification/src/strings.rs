//! Building and comparing text.

use vstd::prelude::*;
use vstd::utf8::{decode_utf8, encode_utf8, valid_utf8};

verus! {

/// `String::push` puts the character at the end.
pub assume_specification[ String::push ](word: &mut String, letter: char)
    ensures
        final(word)@ == old(word)@.push(letter),
;

/// What `str::to_lowercase` makes of a text.
pub uninterp spec fn lowercase(text: Seq<char>) -> Seq<char>;

/// Whether a text is ASCII alone.
pub open spec fn is_ascii_text(text: Seq<char>) -> bool {
    forall|i: int| 0 <= i < text.len() ==> (#[trigger] text[i]) as u32 <= 0x7f
}

/// The lower case of an ASCII letter; any other character as it is.
pub open spec fn ascii_lower(letter: char) -> char {
    if 'A' <= letter <= 'Z' {
        (letter as u32 + 32) as char
    } else {
        letter
    }
}

/// `str::to_lowercase`: the text with every character replaced by its Unicode lower case. In ASCII
/// text only the letters from `A` to `Z` have one; of the rest it is left to the standard library
/// which characters do, and which.
#[verifier::external_body]
pub(crate) fn to_lowercase(text: &str) -> (lowered: String)
    ensures
        lowered@ == lowercase(text@),
        is_ascii_text(text@) ==> lowered@ == text@.map_values(|letter: char| ascii_lower(letter)),
{
    text.to_lowercase()
}

/// What formatting a text with `{:?}` gives.
pub uninterp spec fn debugged(text: Seq<char>) -> Seq<char>;

/// Whether a text stands between quotation marks as it is: printable ASCII, with nothing in it
/// that is escaped there.
pub open spec fn needs_no_escape(text: Seq<char>) -> bool {
    forall|i: int|
        0 <= i < text.len() ==> ' ' <= (#[trigger] text[i]) <= '~' && text[i] != '"' && text[i]
            != '\\'
}

/// `format!("{:?}")` of a text: the text between quotation marks. What is escaped in it, and how,
/// is left to the standard library, but nothing is in printable ASCII without quotation marks and
/// backslashes.
#[verifier::external_body]
pub(crate) fn quoted(text: &str) -> (out: String)
    ensures
        out@ == debugged(text@),
        needs_no_escape(text@) ==> out@ == "\""@ + text@ + "\""@,
{
    format!("{:?}", text)
}

/// What `String::from_utf8_lossy` makes of bytes that need not be text.
pub uninterp spec fn lossy(bytes: Seq<u8>) -> Seq<char>;

/// `String::from_utf8_lossy`: bytes that are UTF-8 are read as they stand; what is not is
/// replaced, and with what is left to the standard library.
#[verifier::external_body]
pub(crate) fn from_utf8_lossy(bytes: &[u8]) -> (text: String)
    ensures
        text@ == lossy(bytes@),
        valid_utf8(bytes@) ==> text@ == decode_utf8(bytes@),
{
    String::from_utf8_lossy(bytes).into_owned()
}

/// The character for a decimal digit.
pub open spec fn digit(value: nat) -> char {
    (48 + value) as char
}

/// A number written in decimal.
pub open spec fn digits(value: nat) -> Seq<char>
    decreases value,
{
    if value < 10 {
        seq![digit(value)]
    } else {
        digits(value / 10).push(digit(value % 10))
    }
}

/// A number written in decimal, with a minus sign where it is negative.
pub open spec fn signed_digits(value: int) -> Seq<char> {
    if value < 0 {
        seq!['-'] + digits((-value) as nat)
    } else {
        digits(value as nat)
    }
}

/// One character, `count` times.
pub open spec fn run(letter: char, count: int) -> Seq<char> {
    Seq::new(if count > 0 { count as nat } else { 0 }, |i: int| letter)
}

/// The text pushed right in a column of `width` characters.
pub open spec fn right_aligned(text: Seq<char>, width: int) -> Seq<char> {
    run(' ', width - text.len()) + text
}

/// The text pushed left in a column of `width` characters.
pub open spec fn left_aligned(text: Seq<char>, width: int) -> Seq<char> {
    text + run(' ', width - text.len())
}

pub(crate) fn push_decimal(out: &mut String, value: u64)
    ensures
        final(out)@ == old(out)@ + digits(value as nat),
    decreases value,
{
    let last: u8 = (value % 10) as u8;
    if value >= 10 {
        push_decimal(out, value / 10);
    }
    let letter: char = (48 + last) as char;
    out.push(letter);
}

/// A number in decimal.
pub(crate) fn decimal(value: u64) -> (text: String)
    ensures
        text@ == digits(value as nat),
{
    let mut text = String::new();
    push_decimal(&mut text, value);
    text
}

pub(crate) fn push_run(out: &mut String, letter: char, count: usize)
    ensures
        final(out)@ == old(out)@ + run(letter, count as int),
{
    let mut done: usize = 0;
    assert(out@ =~= old(out)@ + run(letter, 0));
    while done < count
        invariant
            done <= count,
            out@ == old(out)@ + run(letter, done as int),
        decreases count - done,
    {
        out.push(letter);
        done += 1;
        assert(out@ =~= old(out)@ + run(letter, done as int));
    }
}

/// The text in a column of `width` characters, pushed right.
pub(crate) fn align_right(text: &str, width: usize) -> (out: String)
    ensures
        out@ == right_aligned(text@, width as int),
{
    let length: usize = text.unicode_len();
    let mut out = String::new();
    if length < width {
        push_run(&mut out, ' ', width - length);
    }
    out.append(text);
    out
}

/// The text in a column of `width` characters, pushed left.
pub(crate) fn align_left(text: &str, width: usize) -> (out: String)
    ensures
        out@ == left_aligned(text@, width as int),
{
    let length: usize = text.unicode_len();
    let mut out = String::from_str(text);
    if length < width {
        push_run(&mut out, ' ', width - length);
    }
    out
}

/// The characters of a text, one by one.
pub(crate) fn letters(text: &str) -> (out: Vec<char>)
    ensures
        out@ == text@,
{
    let mut out: Vec<char> = Vec::new();
    for letter in it: text.chars()
        invariant
            it.seq() == text@,
            out@ == text@.take(it.index()),
    {
        out.push(letter);
        assert(text@.take(it.index() + 1) =~= text@.take(it.index()).push(letter));
    }
    assert(text@.take(text@.len() as int) =~= text@);
    out
}

/// The text that `from .. to` of some characters spell.
pub(crate) fn spell(letters: &Vec<char>, from: usize, to: usize) -> (out: String)
    requires
        from <= to <= letters.len(),
    ensures
        out@ == letters@.subrange(from as int, to as int),
{
    let mut out = String::new();
    let mut at: usize = from;
    while at < to
        invariant
            from <= at <= to <= letters.len(),
            out@ == letters@.subrange(from as int, at as int),
        decreases to - at,
    {
        out.push(letters[at]);
        at += 1;
        assert(letters@.subrange(from as int, at as int) =~= letters@.subrange(
            from as int,
            at - 1,
        ).push(letters@[at - 1]));
    }
    out
}

/// Whether two byte strings hold the same bytes.
pub(crate) fn same_bytes(left: &[u8], right: &[u8]) -> (same: bool)
    ensures
        same == (left@ == right@),
{
    if left.len() != right.len() {
        return false;
    }
    let mut at: usize = 0;
    while at < left.len()
        invariant
            left.len() == right.len(),
            at <= left.len(),
            forall|i: int| 0 <= i < at ==> left@[i] == right@[i],
        decreases left.len() - at,
    {
        if left[at] != right[at] {
            return false;
        }
        at += 1;
    }
    assert(left@ =~= right@);
    true
}

pub proof fn encoding_is_injective(left: Seq<char>, right: Seq<char>)
    requires
        encode_utf8(left) == encode_utf8(right),
    ensures
        left == right,
{
    vstd::utf8::encode_utf8_decode_utf8(left);
    vstd::utf8::encode_utf8_decode_utf8(right);
}

/// Whether two texts are the same.
pub(crate) fn same(left: &str, right: &str) -> (same: bool)
    ensures
        same == (left@ == right@),
{
    let same = same_bytes(left.as_bytes(), right.as_bytes());
    proof {
        if same {
            encoding_is_injective(left@, right@);
        }
    }
    same
}

/// The order of dictionaries, byte by byte.
pub open spec fn precedes(left: Seq<u8>, right: Seq<u8>) -> bool
    decreases left.len(),
{
    if right.len() == 0 {
        false
    } else if left.len() == 0 {
        true
    } else if left[0] != right[0] {
        left[0] < right[0]
    } else {
        precedes(left.drop_first(), right.drop_first())
    }
}

pub proof fn precedes_is_transitive(a: Seq<u8>, b: Seq<u8>, c: Seq<u8>)
    requires
        precedes(a, b),
        precedes(b, c),
    ensures
        precedes(a, c),
    decreases a.len(),
{
    if a.len() > 0 && a[0] == b[0] && b[0] == c[0] {
        precedes_is_transitive(a.drop_first(), b.drop_first(), c.drop_first());
    }
}

pub proof fn precedes_is_irreflexive(a: Seq<u8>)
    ensures
        !precedes(a, a),
    decreases a.len(),
{
    if a.len() > 0 {
        precedes_is_irreflexive(a.drop_first());
    }
}

pub proof fn precedes_is_total(a: Seq<u8>, b: Seq<u8>)
    ensures
        a == b || precedes(a, b) || precedes(b, a),
    decreases a.len(),
{
    if a.len() == 0 {
        if b.len() == 0 {
            assert(a =~= b);
        }
    } else if b.len() > 0 && a[0] == b[0] {
        precedes_is_total(a.drop_first(), b.drop_first());
        if a.drop_first() == b.drop_first() {
            assert(a =~= seq![a[0]] + a.drop_first());
            assert(b =~= seq![b[0]] + b.drop_first());
        }
    }
}

/// Anything either follows `a` or precedes `c`, where `a` precedes `c`.
pub proof fn precedes_is_weak(a: Seq<u8>, b: Seq<u8>, c: Seq<u8>)
    requires
        precedes(a, c),
    ensures
        precedes(a, b) || precedes(b, c),
{
    precedes_is_total(a, b);
    if precedes(b, a) {
        precedes_is_transitive(b, a, c);
    }
}

/// Whether `left` comes before `right` byte by byte.
pub(crate) fn bytes_precede(left: &[u8], right: &[u8]) -> (before: bool)
    ensures
        before == precedes(left@, right@),
{
    let mut at: usize = 0;
    assert(left@.skip(0) =~= left@);
    assert(right@.skip(0) =~= right@);
    while at < left.len() && at < right.len()
        invariant
            at <= left.len(),
            at <= right.len(),
            precedes(left@, right@) == precedes(left@.skip(at as int), right@.skip(at as int)),
        decreases left.len() - at,
    {
        if left[at] != right[at] {
            return left[at] < right[at];
        }
        assert(left@.skip(at as int).drop_first() =~= left@.skip(at + 1));
        assert(right@.skip(at as int).drop_first() =~= right@.skip(at + 1));
        at += 1;
    }
    at < right.len()
}

/// Whether `left` comes before `right`, as text is ordered.
pub open spec fn text_precedes(left: Seq<char>, right: Seq<char>) -> bool {
    precedes(encode_utf8(left), encode_utf8(right))
}

/// Whether `needle` stands somewhere in `text`.
pub open spec fn holds<T>(text: Seq<T>, needle: Seq<T>) -> bool {
    exists|at: int|
        0 <= at <= text.len() - needle.len() && #[trigger] text.subrange(at, at + needle.len())
            == needle
}

/// Whether the characters of `needle` stand together in `text`.
pub(crate) fn contains(text: &str, needle: &str) -> (found: bool)
    ensures
        found == holds(text@, needle@),
{
    let hay = letters(text);
    let pin = letters(needle);
    if pin.len() > hay.len() {
        return false;
    }
    let mut at: usize = 0;
    while at <= hay.len() - pin.len()
        invariant
            hay@ == text@,
            pin@ == needle@,
            pin.len() <= hay.len(),
            at <= hay.len() - pin.len() + 1,
            forall|i: int| 0 <= i < at ==> #[trigger] hay@.subrange(i, i + pin@.len()) != pin@,
        decreases hay.len() - at,
    {
        let mut along: usize = 0;
        while along < pin.len() && hay[at + along] == pin[along]
            invariant
                along <= pin.len(),
                at + pin.len() <= hay.len(),
                forall|i: int| 0 <= i < along ==> hay@[at + i] == pin@[i],
            decreases pin.len() - along,
        {
            along += 1;
        }
        if along == pin.len() {
            assert(hay@.subrange(at as int, at + pin@.len()) =~= pin@);
            return true;
        }
        proof {
            let here = hay@.subrange(at as int, at + pin@.len());
            assert(here[along as int] != pin@[along as int]);
        }
        at += 1;
    }
    false
}

/// The characters that Unicode calls white space.
pub open spec fn is_blank(letter: char) -> bool {
    let code = letter as u32;
    ||| 0x09 <= code <= 0x0d
    ||| code == 0x20
    ||| code == 0x85
    ||| code == 0xa0
    ||| code == 0x1680
    ||| 0x2000 <= code <= 0x200a
    ||| code == 0x2028
    ||| code == 0x2029
    ||| code == 0x202f
    ||| code == 0x205f
    ||| code == 0x3000
}

pub(crate) fn blank(letter: char) -> (yes: bool)
    ensures
        yes == is_blank(letter),
{
    let code: u32 = letter as u32;
    (0x09 <= code && code <= 0x0d) || code == 0x20 || code == 0x85 || code == 0xa0 || code == 0x1680
        || (0x2000 <= code && code <= 0x200a) || code == 0x2028 || code == 0x2029 || code == 0x202f
        || code == 0x205f || code == 0x3000
}

/// The text without white space at its start.
pub open spec fn trim_start(text: Seq<char>) -> Seq<char>
    decreases text.len(),
{
    if text.len() > 0 && is_blank(text[0]) {
        trim_start(text.drop_first())
    } else {
        text
    }
}

/// The text without white space at its end.
pub open spec fn trim_end(text: Seq<char>) -> Seq<char>
    decreases text.len(),
{
    if text.len() > 0 && is_blank(text.last()) {
        trim_end(text.drop_last())
    } else {
        text
    }
}

/// The text without white space around it.
pub open spec fn trimmed(text: Seq<char>) -> Seq<char> {
    trim_end(trim_start(text))
}

/// The text without white space around it.
pub(crate) fn trim(text: &str) -> (out: String)
    ensures
        out@ == trimmed(text@),
{
    let letters = letters(text);
    let mut from: usize = 0;
    assert(letters@.skip(0) =~= letters@);
    while from < letters.len() && blank(letters[from])
        invariant
            from <= letters.len(),
            trim_start(letters@) == trim_start(letters@.skip(from as int)),
        decreases letters.len() - from,
    {
        assert(letters@.skip(from as int).drop_first() =~= letters@.skip(from + 1));
        from += 1;
    }
    let ghost start = letters@.skip(from as int);
    let mut to: usize = letters.len();
    assert(letters@.subrange(from as int, to as int) =~= start);
    while to > from && blank(letters[to - 1])
        invariant
            from <= to <= letters.len(),
            trim_end(start) == trim_end(letters@.subrange(from as int, to as int)),
        decreases to - from,
    {
        assert(letters@.subrange(from as int, to as int).drop_last() =~= letters@.subrange(
            from as int,
            to - 1,
        ));
        to -= 1;
    }
    spell(&letters, from, to)
}

/// Whether a text starts with another.
/// A text without the blanks at its end.
pub(crate) fn trim_tail(text: &str) -> (out: String)
    ensures
        out@ == trim_end(text@),
{
    let letters = letters(text);
    let mut end: usize = letters.len();
    assert(text@.take(end as int) =~= text@);
    while end > 0 && blank(letters[end - 1])
        invariant
            letters@ == text@,
            end <= letters@.len(),
            trim_end(text@) == trim_end(text@.take(end as int)),
        decreases end,
    {
        assert(text@.take(end as int).drop_last() =~= text@.take(end - 1));
        end -= 1;
    }
    let out = spell(&letters, 0, end);
    assert(out@ =~= text@.take(end as int));
    out
}

pub(crate) fn starts_with(text: &str, prefix: &str) -> (yes: bool)
    ensures
        yes == prefix@.is_prefix_of(text@),
{
    let whole = letters(text);
    let front = letters(prefix);
    if front.len() > whole.len() {
        return false;
    }
    let mut at: usize = 0;
    while at < front.len()
        invariant
            at <= front.len() <= whole.len(),
            whole@ == text@,
            front@ == prefix@,
            forall|i: int| 0 <= i < at ==> whole@[i] == front@[i],
        decreases front.len() - at,
    {
        if whole[at] != front[at] {
            assert(text@.subrange(0, prefix@.len() as int)[at as int] != prefix@[at as int]);
            return false;
        }
        at += 1;
    }
    assert(prefix@ =~= text@.subrange(0, prefix@.len() as int));
    true
}

/// Whether a text is one of a list.
pub open spec fn is_one_of(text: Seq<char>, list: Seq<&'static str>) -> bool {
    exists|i: int| 0 <= i < list.len() && (#[trigger] list[i])@ == text
}

pub(crate) fn one_of(text: &str, list: &[&'static str]) -> (yes: bool)
    ensures
        yes == is_one_of(text@, list@),
{
    let mut at: usize = 0;
    while at < list.len()
        invariant
            at <= list.len(),
            forall|i: int| 0 <= i < at ==> (#[trigger] list@[i])@ != text@,
        decreases list.len() - at,
    {
        if same(text, list[at]) {
            return true;
        }
        at += 1;
    }
    false
}

/// The lines of a text, without what ends them.
pub open spec fn split_at_char(text: Seq<char>, mark: char) -> Seq<Seq<char>>
    decreases text.len(),
{
    if text.len() == 0 {
        seq![Seq::empty()]
    } else {
        let before = split_at_char(text.drop_last(), mark);
        if text.last() == mark {
            before.push(Seq::empty())
        } else {
            before.drop_last().push(before.last().push(text.last()))
        }
    }
}

pub proof fn splitting_leaves_something(text: Seq<char>, mark: char)
    ensures
        split_at_char(text, mark).len() > 0,
    decreases text.len(),
{
    if text.len() > 0 {
        splitting_leaves_something(text.drop_last(), mark);
    }
}

/// The texts of a list.
pub open spec fn texts(list: Seq<String>) -> Seq<Seq<char>> {
    list.map_values(|text: String| text@)
}

/// A text taken apart wherever a character stands.
pub(crate) fn split(text: &str, mark: char) -> (out: Vec<String>)
    ensures
        texts(out@) == split_at_char(text@, mark),
{
    let all = letters(text);
    let mut out: Vec<String> = Vec::new();
    let mut piece = String::new();
    let mut at: usize = 0;
    let ghost value = |text: String| text@;
    assert(texts(out@).push(piece@) =~= split_at_char(all@.take(0), mark));
    while at < all.len()
        invariant
            at <= all.len(),
            all@ == text@,
            texts(out@).push(piece@) == split_at_char(all@.take(at as int), mark),
        decreases all.len() - at,
    {
        let letter: char = all[at];
        let ghost before = texts(out@);
        let ghost so_far = piece@;
        proof {
            assert(all@.take(at + 1).drop_last() =~= all@.take(at as int));
            assert(all@.take(at + 1).last() == letter);
            assert(before.push(so_far).drop_last() =~= before);
        }
        if letter == mark {
            out.push(piece);
            piece = String::new();
            assert(texts(out@) =~= before.push(so_far));
            assert(piece@ =~= Seq::empty());
        } else {
            piece.push(letter);
        }
        at += 1;
    }
    assert(all@.take(at as int) =~= all@);
    let ghost before = texts(out@);
    out.push(piece);
    assert(texts(out@) =~= before.push(piece@));
    out
}

/// The words of a text: what stands between white space.
pub open spec fn words_and_rest(text: Seq<char>) -> (Seq<Seq<char>>, Seq<char>)
    decreases text.len(),
{
    if text.len() == 0 {
        (Seq::empty(), Seq::empty())
    } else {
        let (done, open) = words_and_rest(text.drop_last());
        if is_blank(text.last()) {
            (
                if open.len() > 0 {
                    done.push(open)
                } else {
                    done
                },
                Seq::empty(),
            )
        } else {
            (done, open.push(text.last()))
        }
    }
}

/// The words of a text: what stands between white space.
pub open spec fn words_of(text: Seq<char>) -> Seq<Seq<char>> {
    let (done, open) = words_and_rest(text);
    if open.len() > 0 {
        done.push(open)
    } else {
        done
    }
}

pub(crate) fn words(text: &str) -> (out: Vec<String>)
    ensures
        texts(out@) == words_of(text@),
{
    let all = letters(text);
    let mut out: Vec<String> = Vec::new();
    let mut word = String::new();
    let mut at: usize = 0;
    assert(texts(out@) =~= Seq::empty());
    assert(all@.take(0) =~= Seq::empty());
    assert(word@ =~= Seq::empty());
    while at < all.len()
        invariant
            at <= all.len(),
            all@ == text@,
            (texts(out@), word@) == words_and_rest(all@.take(at as int)),
        decreases all.len() - at,
    {
        let letter: char = all[at];
        let ghost before = texts(out@);
        let ghost so_far = word@;
        proof {
            assert(all@.take(at + 1).drop_last() =~= all@.take(at as int));
            assert(all@.take(at + 1).last() == letter);
        }
        if blank(letter) {
            if word.as_str().unicode_len() > 0 {
                out.push(word);
                word = String::new();
                assert(texts(out@) =~= before.push(so_far));
            }
            assert(word@ =~= Seq::empty());
        } else {
            word.push(letter);
        }
        at += 1;
    }
    assert(all@.take(at as int) =~= all@);
    if word.as_str().unicode_len() > 0 {
        let ghost before = texts(out@);
        out.push(word);
        assert(texts(out@) =~= before.push(word@));
    }
    out
}

} // verus!
