//! The text format of meshes: sections, each a header line and the numbers
//! that follow it, split up and read as far as whole numbers go.
//!
//! A text holds sections. A section starts with `:`; what follows up to the
//! end of the line is its name, and what follows the line, up to the next
//! `:` or the end of the text, is its data: numbers, each ended by a
//! whitespace character.

use super::geometry::{in_threes, threes};
use vstd::prelude::*;
use vstd::slice::slice_subrange;

verus! {

/// The mark that starts a section.
pub const SECTION_START_SYMBOL: char = ':';

/// What a section holds, as its name says.
#[derive(Debug, Clone, Copy, PartialEq, Eq, Structural)]
pub enum MeshSectionType {
    /// The positions of the vertices, three numbers each
    Vertices,
    /// The indices, whole numbers
    Indices,
    /// The colors of the vertices, three whole numbers up to 255 each
    Color,
    /// The texture coordinates of the vertices, two numbers each
    TexCoord,
    /// A section by another name, which holds nothing of the mesh
    Unknown,
}

/// Whether `c` is a whitespace character: one of the characters that the
/// Unicode Character Database lists under the property `White_Space`.
pub open spec fn whitespace(c: char) -> bool {
    ||| '\u{9}' <= c <= '\u{d}'
    ||| c == ' '
    ||| c == '\u{85}'
    ||| c == '\u{a0}'
    ||| c == '\u{1680}'
    ||| '\u{2000}' <= c <= '\u{200a}'
    ||| c == '\u{2028}'
    ||| c == '\u{2029}'
    ||| c == '\u{202f}'
    ||| c == '\u{205f}'
    ||| c == '\u{3000}'
}

/// Whether the character `c`, which lies beyond ASCII, is a numeric
/// character, as `char::is_numeric` has it.
pub uninterp spec fn numeric_beyond_ascii(c: char) -> bool;

/// Whether `c` is a numeric character: within ASCII the decimal digits are,
/// and nothing else is; beyond ASCII the characters of the Unicode general
/// categories for numbers are.
pub open spec fn numeric(c: char) -> bool {
    if c <= '\u{7f}' {
        '0' <= c <= '9'
    } else {
        numeric_beyond_ascii(c)
    }
}

/// Tells whether `c` is a whitespace character.
///
/// Calls `char::is_whitespace`, which goes by the Unicode property
/// `White_Space`. Believed of it: it says yes to the characters that the
/// Unicode Character Database lists under that property, which `whitespace`
/// writes out, and to no other.
#[verifier::external_body]
fn is_whitespace(c: char) -> (yes: bool)
    ensures
        yes == whitespace(c),
{
    c.is_whitespace()
}

/// Tells whether `c` is a numeric character.
///
/// Calls `char::is_numeric`, which goes by the Unicode general categories
/// for numbers. Believed of it: within ASCII it says yes to the decimal
/// digits and to nothing else; beyond ASCII its answer depends on `c` alone,
/// and is what `numeric_beyond_ascii` names.
#[verifier::external_body]
fn is_numeric(c: char) -> (yes: bool)
    ensures
        yes == (if c <= '\u{7f}' {
            '0' <= c && c <= '9'
        } else {
            numeric_beyond_ascii(c)
        }),
{
    c.is_numeric()
}

/// The section type that goes by the name `name`.
pub open spec fn kind_named(name: Seq<char>) -> MeshSectionType {
    if name == "Vertices"@ {
        MeshSectionType::Vertices
    } else if name == "Indices"@ {
        MeshSectionType::Indices
    } else if name == "Color"@ {
        MeshSectionType::Color
    } else if name == "TexCoord"@ {
        MeshSectionType::TexCoord
    } else {
        MeshSectionType::Unknown
    }
}

/// Whether `c` may stand in a number of a section of the kind `kind`:
/// numeric characters, and `.` and `-` where the numbers can have them.
pub open spec fn allowed(kind: MeshSectionType, c: char) -> bool {
    match kind {
        MeshSectionType::Vertices => c == '.' || c == '-' || numeric(c),
        MeshSectionType::Color => c == '.' || c == '-' || numeric(c),
        MeshSectionType::TexCoord => c == '.' || numeric(c),
        MeshSectionType::Indices => numeric(c),
        MeshSectionType::Unknown => false,
    }
}

/// What a character is to the scan of a section's data.
#[derive(Debug, Clone, Copy, PartialEq, Eq, Structural)]
pub enum CharClass {
    /// A whitespace character
    Space,
    /// A character that may stand in a number
    Number,
    /// A character that can stand neither as whitespace nor in a number
    Other,
}

/// What `c` is to the scan of the data of a section of the kind `kind`.
pub open spec fn class_of(kind: MeshSectionType, c: char) -> CharClass {
    if whitespace(c) {
        CharClass::Space
    } else if allowed(kind, c) {
        CharClass::Number
    } else {
        CharClass::Other
    }
}

/// What each character of `data` is to the scan.
pub open spec fn classes_of(kind: MeshSectionType, data: Seq<char>) -> Seq<CharClass> {
    Seq::new(data.len(), |i: int| class_of(kind, data[i]))
}

/// Whether the character at `i` can stand in the data of a section of the
/// kind `kind` neither as whitespace nor in a number.
pub open spec fn invalid_at(kind: MeshSectionType, data: Seq<char>, i: int) -> bool {
    0 <= i < data.len() && !whitespace(data[i]) && !allowed(kind, data[i])
}

/// Where a number stands in the data of a section: from `start` up to, and
/// without, the whitespace character at `end` that ends it.
#[derive(Debug, Clone, Copy, PartialEq, Eq, Structural)]
pub struct Span {
    pub start: usize,
    pub end: usize,
}

/// Where the number after the numbers `spans` starts.
pub open spec fn next_start(spans: Seq<Span>) -> int {
    if spans.len() == 0 {
        0
    } else {
        spans.last().end + 1
    }
}

/// The numbers that end within the first `n` of the characters whose
/// classes are `classes`. A number runs from the start of the data, or from
/// behind the number before it, up to the next whitespace character that is
/// not its own first character.
pub open spec fn spans_upto(classes: Seq<CharClass>, n: nat) -> Seq<Span>
    decreases n,
{
    if n == 0 {
        Seq::empty()
    } else {
        let before = spans_upto(classes, (n - 1) as nat);
        let start = next_start(before);
        if classes[n - 1] == CharClass::Space && start < n - 1 {
            before.push(Span { start: start as usize, end: (n - 1) as usize })
        } else {
            before
        }
    }
}

/// The place of the first among the first `n` characters that can stand
/// neither as whitespace nor in a number.
pub open spec fn first_other_upto(classes: Seq<CharClass>, n: nat) -> Option<int>
    decreases n,
{
    if n == 0 {
        None
    } else {
        match first_other_upto(classes, (n - 1) as nat) {
            Some(p) => Some(p),
            None => if classes[n - 1] == CharClass::Other {
                Some(n - 1)
            } else {
                None
            },
        }
    }
}

/// The place of the first character that can stand neither as whitespace
/// nor in a number.
pub open spec fn first_other(classes: Seq<CharClass>) -> Option<int> {
    first_other_upto(classes, classes.len())
}

/// The numbers of the characters whose classes are `classes`: those that
/// end before the first character that can stand neither as whitespace nor
/// in a number, or all where there is none.
pub open spec fn class_numbers(classes: Seq<CharClass>) -> Seq<Span> {
    match first_other(classes) {
        Some(p) => spans_upto(classes, p as nat),
        None => spans_upto(classes, classes.len()),
    }
}

/// The place of the first character of `data` that can stand neither as
/// whitespace nor in a number.
pub open spec fn first_invalid(kind: MeshSectionType, data: Seq<char>) -> Option<int> {
    first_other(classes_of(kind, data))
}

/// The numbers of `data`: those that end before the first invalid
/// character, or all where there is none.
pub open spec fn numbers(kind: MeshSectionType, data: Seq<char>) -> Seq<Span> {
    class_numbers(classes_of(kind, data))
}

/// The characters of the number at `span`.
pub open spec fn span_text(data: Seq<char>, span: Span) -> Seq<char> {
    data.subrange(span.start as int, span.end as int)
}

/// What `first_other_upto` finds is the first character that can stand
/// neither as whitespace nor in a number, and it finds none only where
/// there is none.
pub proof fn lemma_first_other(classes: Seq<CharClass>, n: nat)
    requires
        n <= classes.len(),
    ensures
        match first_other_upto(classes, n) {
            Some(p) => 0 <= p < n && classes[p] == CharClass::Other && forall|j: int|
                0 <= j < p ==> classes[j] != CharClass::Other,
            None => forall|j: int| 0 <= j < n ==> classes[j] != CharClass::Other,
        },
    decreases n,
{
    if n > 0 {
        lemma_first_other(classes, (n - 1) as nat);
    }
}

/// The first invalid character of the data of a section is invalid, no
/// character before it is, and where none is found, none is.
pub proof fn lemma_first_invalid(kind: MeshSectionType, data: Seq<char>)
    ensures
        match first_invalid(kind, data) {
            Some(p) => invalid_at(kind, data, p) && forall|j: int|
                0 <= j < p ==> !invalid_at(kind, data, j),
            None => forall|j: int| !invalid_at(kind, data, j),
        },
{
    let classes = classes_of(kind, data);
    lemma_first_other(classes, classes.len());
    match first_other(classes) {
        Some(p) => {
            assert(classes[p] == CharClass::Other);
            assert forall|j: int| 0 <= j < p implies !invalid_at(kind, data, j) by {
                assert(classes[j] != CharClass::Other);
            }
        },
        None => {
            assert forall|j: int| !invalid_at(kind, data, j) by {
                if 0 <= j < data.len() {
                    assert(classes[j] != CharClass::Other);
                }
            }
        },
    }
}

/// The numbers that end within the first `n` characters lie one behind the
/// other within those characters, each is ended by a whitespace character,
/// and none of them is empty.
pub proof fn lemma_spans(classes: Seq<CharClass>, n: nat)
    requires
        n <= classes.len() <= usize::MAX,
    ensures
        0 <= next_start(spans_upto(classes, n)) <= n,
        forall|k: int|
            0 <= k < spans_upto(classes, n).len() ==> {
                let span = #[trigger] spans_upto(classes, n)[k];
                &&& span.start < span.end < n
                &&& classes[span.end as int] == CharClass::Space
                &&& span.start == next_start(spans_upto(classes, n).take(k))
            },
    decreases n,
{
    if n > 0 {
        let before = spans_upto(classes, (n - 1) as nat);
        let all = spans_upto(classes, n);
        lemma_spans(classes, (n - 1) as nat);
        if all.len() > before.len() {
            assert forall|k: int| 0 <= k < all.len() implies {
                let span = #[trigger] all[k];
                &&& span.start < span.end < n
                &&& classes[span.end as int] == CharClass::Space
                &&& span.start == next_start(all.take(k))
            } by {
                if k < before.len() {
                    assert(all[k] == before[k]);
                    assert(all.take(k) =~= before.take(k));
                } else {
                    assert(all.take(k) =~= before);
                }
            }
        }
    }
}

/// What scanning the data of a section finds.
pub struct NumberScan {
    /// Where the numbers stand that end before the first invalid character
    pub spans: Vec<Span>,
    /// The place of the first invalid character, if there is one
    pub invalid: Option<usize>,
}

/// Tells whether `c` may stand in a number of a section of the kind `kind`.
fn is_allowed(kind: MeshSectionType, c: char) -> (yes: bool)
    ensures
        yes == allowed(kind, c),
{
    match kind {
        MeshSectionType::Vertices => c == '.' || c == '-' || is_numeric(c),
        MeshSectionType::Color => c == '.' || c == '-' || is_numeric(c),
        MeshSectionType::TexCoord => c == '.' || is_numeric(c),
        MeshSectionType::Indices => is_numeric(c),
        MeshSectionType::Unknown => false,
    }
}

/// Tells what `c` is to the scan of the data of a section of the kind
/// `kind`.
pub fn classify(kind: MeshSectionType, c: char) -> (class: CharClass)
    ensures
        class == class_of(kind, c),
{
    if is_whitespace(c) {
        CharClass::Space
    } else if is_allowed(kind, c) {
        CharClass::Number
    } else {
        CharClass::Other
    }
}

/// Tells what each character of `data` is to the scan.
pub fn classify_all(kind: MeshSectionType, data: &[char]) -> (classes: Vec<CharClass>)
    ensures
        classes@ == classes_of(kind, data@),
{
    let mut classes: Vec<CharClass> = Vec::new();
    let mut i: usize = 0;
    while i < data.len()
        invariant
            i <= data@.len(),
            classes@.len() == i,
            forall|j: int| 0 <= j < i ==> classes@[j] == class_of(kind, data@[j]),
        decreases data@.len() - i,
    {
        classes.push(classify(kind, data[i]));
        i += 1;
    }
    proof {
        assert(classes@ =~= classes_of(kind, data@));
    }
    classes
}

/// Scans characters by their classes: finds where the numbers stand, up to
/// the first character that can stand neither as whitespace nor in a
/// number. A number that no whitespace character ends is none.
pub fn scan_classes(classes: &[CharClass]) -> (scan: NumberScan)
    ensures
        scan.spans@ == class_numbers(classes@),
        match scan.invalid {
            Some(p) => first_other(classes@) == Some(p as int),
            None => first_other(classes@) is None,
        },
{
    let mut spans: Vec<Span> = Vec::new();
    let mut start: usize = 0;
    let mut i: usize = 0;
    while i < classes.len()
        invariant
            i <= classes@.len(),
            spans@ == spans_upto(classes@, i as nat),
            start == next_start(spans@),
            start <= i,
            first_other_upto(classes@, i as nat) is None,
        decreases classes@.len() - i,
    {
        let class = classes[i];
        if class == CharClass::Other {
            proof {
                lemma_first_other(classes@, classes@.len());
                lemma_first_other(classes@, i as nat);
            }
            return NumberScan { spans, invalid: Some(i) };
        }
        if class == CharClass::Space && start < i {
            spans.push(Span { start, end: i });
            start = i + 1;
        }
        i += 1;
    }
    NumberScan { spans, invalid: None }
}

/// Scans the data of a section of the kind `kind`: finds where its numbers
/// stand, up to the first character that can stand neither as whitespace
/// nor in a number. A number that no whitespace character ends is none.
pub fn scan_numbers(kind: MeshSectionType, data: &[char]) -> (scan: NumberScan)
    ensures
        scan.spans@ == numbers(kind, data@),
        match scan.invalid {
            Some(p) => first_invalid(kind, data@) == Some(p as int),
            None => first_invalid(kind, data@) is None,
        },
{
    let classes = classify_all(kind, data);
    scan_classes(classes.as_slice())
}

/// The value of the decimal digit `c`.
pub open spec fn digit(c: char) -> Option<nat> {
    if '0' <= c <= '9' {
        Some((c as nat - '0' as nat) as nat)
    } else {
        None
    }
}

/// The number that the decimal digits `text` write; none for an empty text
/// and for a text that holds anything but decimal digits.
pub open spec fn decimal(text: Seq<char>) -> Option<nat>
    decreases text.len(),
{
    if text.len() == 0 {
        None
    } else if text.len() == 1 {
        digit(text[0])
    } else {
        match (decimal(text.drop_last()), digit(text.last())) {
            (Some(value), Some(d)) => Some(10 * value + d),
            _ => None,
        }
    }
}

/// The whole number up to `max` that `text` writes: decimal digits, which a
/// `+` may precede. A text that writes a larger number writes none.
pub open spec fn unsigned(text: Seq<char>, max: nat) -> Option<nat> {
    let digits = if text.len() > 0 && text[0] == '+' {
        text.skip(1)
    } else {
        text
    };
    match decimal(digits) {
        Some(value) => if value <= max {
            Some(value)
        } else {
            None
        },
        None => None,
    }
}

/// A text that writes a number starts with texts that write numbers, none
/// of them larger.
pub proof fn lemma_decimal_grows(text: Seq<char>, n: int)
    requires
        0 < n <= text.len(),
        decimal(text) is Some,
    ensures
        decimal(text.take(n)) is Some,
        decimal(text.take(n)).unwrap() <= decimal(text).unwrap(),
    decreases text.len(),
{
    if n == text.len() {
        assert(text.take(n) =~= text);
    } else {
        assert(text.drop_last().take(n) =~= text.take(n));
        lemma_decimal_grows(text.drop_last(), n);
    }
}

/// Reads the whole number up to `max` that `text` writes.
pub fn read_unsigned(text: &[char], max: u32) -> (value: Option<u32>)
    ensures
        match value {
            Some(v) => unsigned(text@, max as nat) == Some(v as nat),
            None => unsigned(text@, max as nat) is None,
        },
{
    let end = text.len();
    let mut i: usize = 0;
    if i < end && text[i] == '+' {
        i += 1;
    }
    let first = i;
    let ghost digits = text@.subrange(first as int, end as int);
    proof {
        if text@.len() > 0 && text@[0] == '+' {
            assert(digits =~= text@.skip(1));
        } else {
            assert(digits =~= text@);
        }
    }
    if i == end {
        return None;
    }
    let mut value: u32 = 0;
    while i < end
        invariant
            first <= i <= end == text@.len(),
            digits == text@.subrange(first as int, end as int),
            unsigned(text@, max as nat) == (match decimal(digits) {
                Some(v) => if v <= max {
                    Some(v)
                } else {
                    None
                },
                None => None,
            }),
            value <= max,
            i > first ==> decimal(digits.take(i - first)) == Some(value as nat),
            i == first ==> value == 0,
        decreases end - i,
    {
        let c = text[i];
        let ghost head = digits.take(i - first + 1);
        proof {
            assert(head.last() == c);
            assert(head.drop_last() =~= digits.take(i - first));
            if decimal(digits) is Some {
                lemma_decimal_grows(digits, i - first + 1);
            }
        }
        if c < '0' || c > '9' {
            proof {
                assert(digit(c) is None);
                assert(decimal(head) is None);
            }
            return None;
        }
        let d: u32 = c as u32 - '0' as u32;
        proof {
            assert(digit(c) == Some(d as nat));
            assert(decimal(head) == Some((10 * value + d) as nat));
        }
        if d > max || value > (max - d) / 10 {
            return None;
        }
        value = value * 10 + d;
        i += 1;
    }
    proof {
        assert(digits.take(end - first) =~= digits);
    }
    Some(value)
}

/// Why the data of a section could not be read.
#[derive(Debug, Clone, Copy, PartialEq, Eq, Structural)]
pub enum NumberError {
    /// The character at `position` can stand neither as whitespace nor in
    /// a number
    InvalidCharacter { position: usize },
    /// The number at `span` is no whole number, or too large a one
    InvalidValue { span: Span },
}

/// Why the data of a section cannot be read, if it cannot, given the rank
/// of the first of its numbers that is none: that number is the error, if
/// there is one; else the first invalid character, if there is one.
pub open spec fn fault_of(spans: Seq<Span>, invalid: Option<usize>, unreadable: Option<usize>) -> Option<
    NumberError,
> {
    match unreadable {
        Some(k) if k < spans.len() => Some(NumberError::InvalidValue { span: spans[k as int] }),
        _ => match invalid {
            Some(position) => Some(NumberError::InvalidCharacter { position }),
            None => None,
        },
    }
}

/// Tells why the data that was scanned cannot be read, if it cannot, from
/// the rank of the first of its numbers that is none. A rank that the scan
/// has no number for counts as none.
pub fn number_fault(scan: &NumberScan, unreadable: Option<usize>) -> (fault: Option<NumberError>)
    ensures
        fault == fault_of(scan.spans@, scan.invalid, unreadable),
{
    if let Some(k) = unreadable {
        if k < scan.spans.len() {
            return Some(NumberError::InvalidValue { span: scan.spans[k] });
        }
    }
    match scan.invalid {
        Some(position) => Some(NumberError::InvalidCharacter { position }),
        None => None,
    }
}

/// The rank of the first among the first `k` of `spans` that writes no
/// whole number up to `max`.
pub open spec fn first_unreadable_upto(data: Seq<char>, spans: Seq<Span>, max: nat, k: nat) -> Option<
    int,
>
    decreases k,
{
    if k == 0 {
        None
    } else {
        match first_unreadable_upto(data, spans, max, (k - 1) as nat) {
            Some(bad) => Some(bad),
            None => if unsigned(span_text(data, spans[k - 1]), max) is None {
                Some(k - 1)
            } else {
                None
            },
        }
    }
}

/// The whole numbers up to `max` that the data of a section holds, or why
/// they cannot be read: the first number that is none, if there is one
/// before the first invalid character; else that character.
pub open spec fn whole_numbers(kind: MeshSectionType, data: Seq<char>, max: nat) -> Result<
    Seq<u32>,
    NumberError,
> {
    let spans = numbers(kind, data);
    match first_unreadable_upto(data, spans, max, spans.len()) {
        Some(bad) => Err(NumberError::InvalidValue { span: spans[bad] }),
        None => match first_invalid(kind, data) {
            Some(p) => Err(NumberError::InvalidCharacter { position: p as usize }),
            None => Ok(
                Seq::new(
                    spans.len(),
                    |k: int| unsigned(span_text(data, spans[k]), max).unwrap() as u32,
                ),
            ),
        },
    }
}

/// Before the first unreadable number every number can be read, and where
/// none is found, all can.
pub proof fn lemma_first_unreadable(data: Seq<char>, spans: Seq<Span>, max: nat, k: nat)
    requires
        k <= spans.len(),
    ensures
        match first_unreadable_upto(data, spans, max, k) {
            Some(bad) => 0 <= bad < k && unsigned(span_text(data, spans[bad]), max) is None
                && forall|j: int|
                0 <= j < bad ==> unsigned(span_text(data, #[trigger] spans[j]), max) is Some,
            None => forall|j: int|
                0 <= j < k ==> unsigned(span_text(data, #[trigger] spans[j]), max) is Some,
        },
    decreases k,
{
    if k > 0 {
        lemma_first_unreadable(data, spans, max, (k - 1) as nat);
    }
}

/// Reads the whole numbers up to `max` out of the data of a section of the
/// kind `kind`.
pub fn read_whole_numbers(kind: MeshSectionType, data: &[char], max: u32) -> (result: Result<
    Vec<u32>,
    NumberError,
>)
    ensures
        match result {
            Ok(values) => whole_numbers(kind, data@, max as nat) == Ok::<Seq<u32>, NumberError>(
                values@,
            ),
            Err(error) => whole_numbers(kind, data@, max as nat) == Err::<Seq<u32>, NumberError>(
                error,
            ),
        },
{
    let scan = scan_numbers(kind, data);
    let size = data.len();
    let ghost spans = scan.spans@;
    let mut values: Vec<u32> = Vec::new();
    let mut k: usize = 0;
    proof {
        let classes = classes_of(kind, data@);
        match first_other(classes) {
            Some(p) => {
                lemma_first_other(classes, classes.len());
                lemma_spans(classes, p as nat);
            },
            None => {
                lemma_spans(classes, classes.len());
            },
        }
    }
    while k < scan.spans.len()
        invariant
            k <= spans.len(),
            spans == scan.spans@,
            spans == numbers(kind, data@),
            forall|j: int|
                0 <= j < spans.len() ==> (#[trigger] spans[j]).start < spans[j].end < data@.len(),
            first_unreadable_upto(data@, spans, max as nat, k as nat) is None,
            values@.len() == k,
            forall|j: int|
                0 <= j < k ==> unsigned(span_text(data@, spans[j]), max as nat) == Some(
                    (#[trigger] values@[j]) as nat,
                ),
        decreases spans.len() - k,
    {
        let span = scan.spans[k];
        match read_unsigned(slice_subrange(data, span.start, span.end), max) {
            Some(value) => {
                values.push(value);
            },
            None => {
                proof {
                    lemma_first_unreadable(data@, spans, max as nat, spans.len());
                    lemma_first_unreadable(data@, spans, max as nat, k as nat);
                    let bad = first_unreadable_upto(data@, spans, max as nat, spans.len());
                    assert(bad is Some);
                    if bad.unwrap() < k {
                        assert(unsigned(span_text(data@, spans[bad.unwrap()]), max as nat) is Some);
                    }
                    if k < bad.unwrap() {
                        assert(unsigned(span_text(data@, spans[k as int]), max as nat) is Some);
                    }
                }
                return Err(NumberError::InvalidValue { span });
            },
        }
        k += 1;
    }
    match scan.invalid {
        Some(position) => Err(NumberError::InvalidCharacter { position }),
        None => {
            proof {
                let wanted = whole_numbers(kind, data@, max as nat);
                assert(wanted is Ok);
                assert(values@ =~= wanted->Ok_0);
            }
            Ok(values)
        },
    }
}

/// Reads the indices out of the data of an `Indices` section.
pub fn load_raw_indices(data: &[char]) -> (result: Result<Vec<u32>, NumberError>)
    ensures
        match result {
            Ok(indices) => whole_numbers(MeshSectionType::Indices, data@, u32::MAX as nat) == Ok::<
                Seq<u32>,
                NumberError,
            >(indices@),
            Err(error) => whole_numbers(MeshSectionType::Indices, data@, u32::MAX as nat) == Err::<
                Seq<u32>,
                NumberError,
            >(error),
        },
{
    read_whole_numbers(MeshSectionType::Indices, data, u32::MAX)
}

/// The values of `values` as bytes.
pub open spec fn as_bytes(values: Seq<u32>) -> Seq<u8> {
    Seq::new(values.len(), |i: int| values[i] as u8)
}

/// Reads the colors out of the data of a `Color` section: red, green and
/// blue, each up to 255. Numbers left over at the end, one or two, make no
/// color.
pub fn load_raw_color(data: &[char]) -> (result: Result<Vec<[u8; 3]>, NumberError>)
    ensures
        match result {
            Ok(colors) => whole_numbers(MeshSectionType::Color, data@, 255) is Ok && in_threes(
                as_bytes(whole_numbers(MeshSectionType::Color, data@, 255)->Ok_0),
                colors@,
            ),
            Err(error) => whole_numbers(MeshSectionType::Color, data@, 255) == Err::<
                Seq<u32>,
                NumberError,
            >(error),
        },
{
    let values = match read_whole_numbers(MeshSectionType::Color, data, 255) {
        Ok(values) => values,
        Err(error) => {
            return Err(error);
        },
    };
    let mut bytes: Vec<u8> = Vec::new();
    let mut i: usize = 0;
    proof {
        lemma_first_unreadable(
            data@,
            numbers(MeshSectionType::Color, data@),
            255,
            numbers(MeshSectionType::Color, data@).len(),
        );
    }
    while i < values.len()
        invariant
            i <= values@.len(),
            bytes@.len() == i,
            forall|j: int| 0 <= j < values@.len() ==> #[trigger] values@[j] <= 255,
            forall|j: int| 0 <= j < i ==> #[trigger] bytes@[j] == values@[j] as u8,
        decreases values@.len() - i,
    {
        bytes.push(values[i] as u8);
        i += 1;
    }
    proof {
        assert(bytes@ =~= as_bytes(values@));
    }
    Ok(threes(bytes.as_slice()))
}

/// One section of a mesh text: what it holds, as its name says, and its
/// data.
pub struct RawSection {
    /// What the section holds
    pub kind: MeshSectionType,
    /// The characters that follow the header line
    pub data: Vec<char>,
}

impl View for RawSection {
    type V = (MeshSectionType, Seq<char>);

    open spec fn view(&self) -> (MeshSectionType, Seq<char>) {
        (self.kind, self.data@)
    }
}

/// What each of `sections` is, as plain values.
pub open spec fn section_views(sections: Seq<RawSection>) -> Seq<(MeshSectionType, Seq<char>)> {
    Seq::new(sections.len(), |i: int| sections[i]@)
}

/// Where the splitting of a text stands after some of its characters.
pub struct Splitting {
    /// The kind of the section whose header line was read last
    pub kind: MeshSectionType,
    /// The name read so far, while a header line is read
    pub name: Seq<char>,
    /// The data read so far of the section whose header line was read last
    pub data: Seq<char>,
    /// Whether a header line is read
    pub in_header: bool,
    /// Whether a section has started
    pub started: bool,
    /// The sections that have come to their end
    pub closed: Seq<(MeshSectionType, Seq<char>)>,
}

/// The splitting before any character.
pub open spec fn split_start() -> Splitting {
    Splitting {
        kind: MeshSectionType::Unknown,
        name: Seq::empty(),
        data: Seq::empty(),
        in_header: false,
        started: false,
        closed: Seq::empty(),
    }
}

/// The splitting after one more character: `:` ends the section that was
/// read, unless it is of unknown kind, and starts a header line; the end of
/// the header line decides the kind of the section; every other character
/// belongs to the name while a header line is read, and to the data after
/// it. What stands before the first section belongs to nothing.
pub open spec fn split_step(s: Splitting, c: char) -> Splitting {
    if c == SECTION_START_SYMBOL {
        Splitting {
            closed: if s.kind != MeshSectionType::Unknown {
                s.closed.push((s.kind, s.data))
            } else {
                s.closed
            },
            name: Seq::empty(),
            data: Seq::empty(),
            in_header: true,
            started: true,
            ..s
        }
    } else if s.in_header {
        if c == '\n' {
            Splitting { kind: kind_named(s.name), in_header: false, ..s }
        } else {
            Splitting { name: s.name.push(c), ..s }
        }
    } else if s.started {
        Splitting { data: s.data.push(c), ..s }
    } else {
        s
    }
}

/// The splitting after the first `n` characters of `text`.
pub open spec fn split_upto(text: Seq<char>, n: nat) -> Splitting
    decreases n,
{
    if n == 0 {
        split_start()
    } else {
        split_step(split_upto(text, (n - 1) as nat), text[n - 1])
    }
}

/// The sections of `text`, in their order: those that a following section
/// has ended, and the one that the end of the text ends. Sections of
/// unknown kind are left out. A mark that comes within a header line ends
/// the section before it once more, without data.
pub open spec fn sections_of(text: Seq<char>) -> Seq<(MeshSectionType, Seq<char>)> {
    let s = split_upto(text, text.len());
    if s.kind != MeshSectionType::Unknown {
        s.closed.push((s.kind, s.data))
    } else {
        s.closed
    }
}

/// Tells whether the characters `name` spell `word`.
fn spells(name: &Vec<char>, word: &str) -> (same: bool)
    ensures
        same == (name@ == word@),
{
    let length = word.unicode_len();
    if name.len() != length {
        return false;
    }
    let mut i: usize = 0;
    while i < length
        invariant
            i <= length,
            length == word@.len(),
            length == name@.len(),
            forall|j: int| 0 <= j < i ==> name@[j] == word@[j],
        decreases length - i,
    {
        if name[i] != word.get_char(i) {
            return false;
        }
        i += 1;
    }
    assert(name@ =~= word@);
    true
}

/// Tells the section type that goes by the name `name`.
pub fn section_type(name: &Vec<char>) -> (kind: MeshSectionType)
    ensures
        kind == kind_named(name@),
{
    if spells(name, "Vertices") {
        MeshSectionType::Vertices
    } else if spells(name, "Indices") {
        MeshSectionType::Indices
    } else if spells(name, "Color") {
        MeshSectionType::Color
    } else if spells(name, "TexCoord") {
        MeshSectionType::TexCoord
    } else {
        MeshSectionType::Unknown
    }
}

/// Splits a mesh text into its sections.
pub fn split_sections(text: &str) -> (sections: Vec<RawSection>)
    ensures
        section_views(sections@) == sections_of(text@),
{
    let mut kind = MeshSectionType::Unknown;
    let mut name: Vec<char> = Vec::new();
    let mut data: Vec<char> = Vec::new();
    let mut in_header = false;
    let mut started = false;
    let mut closed: Vec<RawSection> = Vec::new();
    proof {
        vstd::string::axiom_spec_iter(text);
        assert(section_views(closed@) =~= split_start().closed);
    }
    for c in it: text.chars()
        invariant
            it.seq() == text@,
            ({
                let s = split_upto(text@, it.index() as nat);
                &&& kind == s.kind
                &&& name@ == s.name
                &&& data@ == s.data
                &&& in_header == s.in_header
                &&& started == s.started
                &&& section_views(closed@) == s.closed
            }),
    {
        let ghost before = split_upto(text@, it.index() as nat);
        let ghost after = split_step(before, c);
        assert(after == split_upto(text@, (it.index() + 1) as nat));
        if c == SECTION_START_SYMBOL {
            let mut ended: Vec<char> = Vec::new();
            std::mem::swap(&mut data, &mut ended);
            if kind != MeshSectionType::Unknown {
                let ghost held = closed@;
                closed.push(RawSection { kind, data: ended });
                assert(section_views(closed@) =~= section_views(held).push((kind, ended@)));
            }
            name = Vec::new();
            in_header = true;
            started = true;
        } else if in_header {
            if c == '\n' {
                kind = section_type(&name);
                in_header = false;
            } else {
                name.push(c);
            }
        } else if started {
            data.push(c);
        }
    }
    let ghost last = split_upto(text@, text@.len());
    if kind != MeshSectionType::Unknown {
        let ghost held = closed@;
        closed.push(RawSection { kind, data });
        assert(section_views(closed@) =~= section_views(held).push((last.kind, last.data)));
    }
    closed
}

} // verus!
