//! Small building blocks for message and argument text.

use vstd::prelude::*;

verus! {

/// The decimal digit of a number below ten.
pub open spec fn digit(n: nat) -> char {
    (n + 48) as char
}

/// The decimal spelling of a number, without leading zeros.
pub open spec fn digits(n: nat) -> Seq<char>
    decreases n,
{
    if n < 10 {
        seq![digit(n)]
    } else {
        digits(n / 10).push(digit(n % 10))
    }
}

/// Appends one character to a string.
///
/// Stands for `String::push`, which adds the given character at the end.
pub assume_specification[ String::push ](s: &mut String, c: char)
    ensures
        final(s)@ == old(s)@.push(c),
;

/// One decimal digit as a character.
fn digit_char(n: u64) -> (c: char)
    requires
        n < 10,
    ensures
        c == digit(n as nat),
{
    (n as u8 + 48) as char
}

/// Spells a number in decimal.
pub fn decimal(n: u64) -> (r: String)
    ensures
        r@ == digits(n as nat),
    decreases n,
{
    if n < 10 {
        let mut r = String::new();
        r.push(digit_char(n));
        proof {
            assert(r@ =~= digits(n as nat));
        }
        r
    } else {
        let mut r = decimal(n / 10);
        r.push(digit_char(n % 10));
        r
    }
}

/// A number between two pieces of text.
pub open spec fn around(before: Seq<char>, n: nat, after: Seq<char>) -> Seq<char> {
    before + digits(n) + after
}

/// Joins two pieces of text around a number.
pub fn text_around(before: &str, n: u64, after: &str) -> (r: String)
    ensures
        r@ == around(before@, n as nat, after@),
{
    let mut r = String::from_str(before);
    let spelled = decimal(n);
    r.append(spelled.as_str());
    r.append(after);
    r
}

/// Joins two pieces of text.
pub fn text_pair(first: &str, second: &str) -> (r: String)
    ensures
        r@ == first@ + second@,
{
    let mut r = String::from_str(first);
    r.append(second);
    r
}

/// An ASCII capital as its small letter; all other characters stay.
pub open spec fn lower(c: char) -> char {
    if 65 <= c as u32 <= 90 { (c as u32 + 32) as char } else { c }
}

/// A text with its ASCII capitals made small.
pub open spec fn lowered(s: Seq<char>) -> Seq<char> {
    s.map_values(|c: char| lower(c))
}

/// Whether two texts differ at most in the case of ASCII letters.
pub open spec fn same_letters(a: Seq<char>, b: Seq<char>) -> bool {
    lowered(a) == lowered(b)
}

/// Whether a text begins with another.
pub open spec fn begins(s: Seq<char>, prefix: Seq<char>) -> bool {
    prefix.len() <= s.len() && s.take(prefix.len() as int) == prefix
}

/// Whether a text stands in another at a place.
pub open spec fn stands_at(s: Seq<char>, part: Seq<char>, place: int) -> bool {
    0 <= place && place + part.len() <= s.len() && s.subrange(place, place + part.len()) == part
}

/// Whether a text stands somewhere in another.
pub open spec fn contains(s: Seq<char>, part: Seq<char>) -> bool {
    exists|place: int| stands_at(s, part, place)
}

/// White space, as Unicode defines it.
pub open spec fn blank(c: char) -> bool {
    let code = c as u32;
    ||| 0x9 <= code <= 0xd
    ||| code == 0x20
    ||| code == 0x85
    ||| code == 0xa0
    ||| code == 0x1680
    ||| 0x2000 <= code <= 0x200a
    ||| code == 0x2028
    ||| code == 0x2029
    ||| code == 0x202f
    ||| code == 0x205f
    ||| code == 0x3000
}

/// Whether a text holds nothing but white space.
pub open spec fn all_blank(s: Seq<char>) -> bool {
    forall|i: int| 0 <= i < s.len() ==> blank(#[trigger] s[i])
}

pub fn lower_char(c: char) -> (r: char)
    ensures
        r == lower(c),
{
    let code: u32 = c as u32;
    if 65 <= code && code <= 90 {
        (code as u8 + 32) as char
    } else {
        c
    }
}

fn is_blank_char(c: char) -> (r: bool)
    ensures
        r == blank(c),
{
    let code: u32 = c as u32;
    (0x9 <= code && code <= 0xd) || code == 0x20 || code == 0x85 || code == 0xa0 || code == 0x1680
        || (0x2000 <= code && code <= 0x200a) || code == 0x2028 || code == 0x2029 || code == 0x202f
        || code == 0x205f || code == 0x3000
}

/// Lists the characters of a text.
pub fn characters(s: &str) -> (r: Vec<char>)
    ensures
        r@ == s@,
{
    let mut list: Vec<char> = Vec::new();
    for c in it: s.chars()
        invariant
            list@ == it.seq().take(it.index() as int),
            it.seq() == s@,
    {
        list.push(c);
    }
    list
}

/// Makes a text of characters.
pub fn gathered(list: &[char]) -> (r: String)
    ensures
        r@ == list@,
{
    let mut text = String::new();
    let mut i: usize = 0;
    while i < list.len()
        invariant
            i <= list@.len(),
            text@ =~= list@.take(i as int),
        decreases list@.len() - i,
    {
        text.push(list[i]);
        i = i + 1;
    }
    assert(list@.take(i as int) =~= list@);
    text
}

/// Compares two lists of characters.
fn same_list(a: &[char], b: &[char]) -> (r: bool)
    ensures
        r == (a@ == b@),
{
    if a.len() != b.len() {
        return false;
    }
    let mut i: usize = 0;
    while i < a.len()
        invariant
            i <= a@.len() == b@.len(),
            forall|k: int| 0 <= k < i ==> a@[k] == b@[k],
        decreases a@.len() - i,
    {
        if a[i] != b[i] {
            return false;
        }
        i = i + 1;
    }
    assert(a@ =~= b@);
    true
}

/// Compares two texts.
pub fn same_text(a: &str, b: &str) -> (r: bool)
    ensures
        r == (a@ == b@),
{
    let first = characters(a);
    let second = characters(b);
    same_list(first.as_slice(), second.as_slice())
}

fn lower_list(list: &Vec<char>) -> (r: Vec<char>)
    ensures
        r@ == lowered(list@),
{
    let mut small: Vec<char> = Vec::new();
    let mut i: usize = 0;
    while i < list.len()
        invariant
            i <= list@.len(),
            small@ =~= lowered(list@.take(i as int)),
        decreases list@.len() - i,
    {
        small.push(lower_char(list[i]));
        i = i + 1;
    }
    assert(list@.take(i as int) =~= list@);
    small
}

/// Makes ASCII capitals small.
pub fn lowercase(s: &str) -> (r: String)
    ensures
        r@ == lowered(s@),
{
    let list = characters(s);
    let small = lower_list(&list);
    gathered(small.as_slice())
}

/// Compares two texts without regard to the case of ASCII letters.
pub fn equals_ignoring_case(a: &str, b: &str) -> (r: bool)
    ensures
        r == same_letters(a@, b@),
{
    let first = lower_list(&characters(a));
    let second = lower_list(&characters(b));
    same_list(first.as_slice(), second.as_slice())
}

/// Whether a text begins with another.
pub fn starts_with(s: &str, prefix: &str) -> (r: bool)
    ensures
        r == begins(s@, prefix@),
{
    let list = characters(s);
    let head = characters(prefix);
    if head.len() > list.len() {
        return false;
    }
    let part = vstd::slice::slice_subrange(list.as_slice(), 0, head.len());
    assert(part@ =~= s@.take(prefix@.len() as int));
    same_list(part, head.as_slice())
}

/// Whether a text stands somewhere in another.
pub fn has_part(s: &str, part: &str) -> (r: bool)
    ensures
        r == contains(s@, part@),
{
    let list = characters(s);
    let wanted = characters(part);
    if wanted.len() > list.len() {
        return false;
    }
    let last: usize = list.len() - wanted.len();
    let mut place: usize = 0;
    loop
        invariant
            list@ == s@,
            wanted@ == part@,
            last == list@.len() - wanted@.len(),
            place <= last,
            forall|k: int| 0 <= k < place ==> !stands_at(s@, part@, k),
        decreases last - place,
    {
        assert(list.len() <= usize::MAX);
        let found = vstd::slice::slice_subrange(list.as_slice(), place, place + wanted.len());
        if same_list(found, wanted.as_slice()) {
            assert(stands_at(s@, part@, place as int));
            return true;
        }
        assert(!stands_at(s@, part@, place as int));
        if place == last {
            return false;
        }
        place = place + 1;
    }
}

/// Whether a text holds nothing but white space.
pub fn is_blank(s: &str) -> (r: bool)
    ensures
        r == all_blank(s@),
{
    let list = characters(s);
    let mut i: usize = 0;
    while i < list.len()
        invariant
            i <= list@.len(),
            list@ == s@,
            forall|k: int| 0 <= k < i ==> blank(#[trigger] s@[k]),
        decreases list@.len() - i,
    {
        if !is_blank_char(list[i]) {
            assert(!blank(s@[i as int]));
            return false;
        }
        i = i + 1;
    }
    true
}

/// The texts of a list, with a separator between them.
pub open spec fn joined(parts: Seq<Seq<char>>, separator: Seq<char>) -> Seq<char>
    decreases parts.len(),
{
    if parts.len() == 0 {
        seq![]
    } else if parts.len() == 1 {
        parts[0]
    } else {
        joined(parts.drop_last(), separator) + separator + parts.last()
    }
}

/// The texts that a list of strings holds.
pub open spec fn texts(parts: Seq<String>) -> Seq<Seq<char>> {
    parts.map_values(|part: String| part@)
}

/// Joins texts with a separator between them.
pub fn join(parts: &Vec<String>, separator: &str) -> (r: String)
    ensures
        r@ == joined(texts(parts@), separator@),
{
    let mut r = String::new();
    let mut i: usize = 0;
    while i < parts.len()
        invariant
            i <= parts@.len(),
            r@ =~= joined(texts(parts@).take(i as int), separator@),
        decreases parts@.len() - i,
    {
        proof {
            let grown = texts(parts@).take(i + 1);
            assert(grown.drop_last() =~= texts(parts@).take(i as int));
            assert(grown.last() == parts@[i as int]@);
        }
        if i > 0 {
            r.append(separator);
        }
        r.append(parts[i].as_str());
        i = i + 1;
    }
    assert(texts(parts@).take(i as int) =~= texts(parts@));
    r
}

/// The texts between the places where a character stands.
pub open spec fn pieces(s: Seq<char>, c: char) -> Seq<Seq<char>>
    decreases s.len(),
{
    if s.len() == 0 {
        seq![seq![]]
    } else {
        let before = pieces(s.drop_last(), c);
        if s.last() == c {
            before.push(seq![])
        } else {
            before.drop_last().push(before.last().push(s.last()))
        }
    }
}

proof fn lemma_some_piece(s: Seq<char>, c: char)
    ensures
        pieces(s, c).len() >= 1,
    decreases s.len(),
{
    if s.len() > 0 {
        lemma_some_piece(s.drop_last(), c);
    }
}

/// Splits a text at every place where a character stands.
pub fn split(s: &str, c: char) -> (r: Vec<String>)
    ensures
        texts(r@) == pieces(s@, c),
        r@.len() >= 1,
{
    let list = characters(s);
    let mut parts: Vec<String> = Vec::new();
    let mut piece = String::new();
    let mut i: usize = 0;
    assert(s@.take(0) =~= Seq::<char>::empty());
    assert(texts(parts@).push(piece@) =~= pieces(s@.take(0), c));
    while i < list.len()
        invariant
            list@ == s@,
            i <= list@.len(),
            texts(parts@).push(piece@) == pieces(s@.take(i as int), c),
        decreases list@.len() - i,
    {
        let ghost before = parts@;
        let ghost began = piece@;
        assert(s@.take(i + 1).drop_last() =~= s@.take(i as int));
        if list[i] == c {
            parts.push(piece);
            piece = String::new();
            assert(texts(parts@) =~= texts(before).push(began));
            assert(texts(parts@).push(piece@) =~= pieces(s@.take(i as int), c).push(seq![]));
        } else {
            piece.push(list[i]);
            assert(texts(parts@).push(piece@) =~= pieces(s@.take(i as int), c).drop_last().push(
                began.push(s@[i as int]),
            ));
        }
        i = i + 1;
    }
    assert(s@.take(i as int) =~= s@);
    let ghost before = parts@;
    let ghost last = piece@;
    parts.push(piece);
    assert(texts(parts@) =~= texts(before).push(last));
    parts
}

/// A text that is split and joined again with the same character is the text.
pub proof fn law_splitting_loses_nothing(s: Seq<char>, c: char)
    ensures
        joined(pieces(s, c), seq![c]) == s,
    decreases s.len(),
{
    let list = pieces(s, c);
    if s.len() == 0 {
        assert(list[0] =~= s);
    } else {
        let before = pieces(s.drop_last(), c);
        lemma_some_piece(s.drop_last(), c);
        law_splitting_loses_nothing(s.drop_last(), c);
        if s.last() == c {
            assert(list.drop_last() =~= before);
            assert(joined(list, seq![c]) =~= s);
        } else {
            assert(list.drop_last() =~= before.drop_last());
            assert(list.last() == before.last().push(s.last()));
            assert(joined(list, seq![c]) =~= joined(before, seq![c]).push(s.last()));
            assert(s.drop_last().push(s.last()) =~= s);
        }
    }
}

/// No part of a text that is split holds the character it is split at.
pub proof fn law_pieces_hold_no_separator(s: Seq<char>, c: char, i: int)
    requires
        0 <= i < pieces(s, c).len(),
    ensures
        !pieces(s, c)[i].contains(c),
    decreases s.len(),
{
    if s.len() > 0 {
        let before = pieces(s.drop_last(), c);
        lemma_some_piece(s.drop_last(), c);
        if i < before.len() {
            law_pieces_hold_no_separator(s.drop_last(), c, i);
        }
        if s.last() != c && i == before.len() - 1 {
            let piece = before.last();
            assert forall|k: int| 0 <= k < piece.push(s.last()).len() implies piece.push(
                s.last(),
            )[k] != c by {
                if k < piece.len() {
                    assert(piece.contains(piece[k]));
                }
            }
        }
    }
}

/// What an optional string holds.
pub open spec fn optional_text(text: Option<String>) -> Option<Seq<char>> {
    match text {
        None => None,
        Some(s) => Some(s@),
    }
}

/// Copies an optional string.
pub fn copy_optional(text: &Option<String>) -> (r: Option<String>)
    ensures
        optional_text(r) == optional_text(*text),
{
    match text {
        None => None,
        Some(s) => Some(s.clone()),
    }
}

/// The first place at or behind `start` that holds a line feed, or the end.
pub open spec fn line_end(s: Seq<char>, start: nat) -> nat
    decreases s.len() - start,
{
    if start >= s.len() {
        s.len()
    } else if s[start as int] == '\n' {
        start
    } else {
        line_end(s, start + 1)
    }
}

pub proof fn lemma_line_end(s: Seq<char>, start: nat)
    requires
        start <= s.len(),
    ensures
        start <= line_end(s, start) <= s.len(),
    decreases s.len() - start,
{
    if start < s.len() && s[start as int] != '\n' {
        lemma_line_end(s, start + 1);
    }
}

/// A line without the carriage return that stands before its line feed.
pub open spec fn plain_line(line: Seq<char>, ended: bool) -> Seq<char> {
    if ended && line.len() > 0 && line.last() == '\r' {
        line.drop_last()
    } else {
        line
    }
}

/// The lines of a text from a place on.
pub open spec fn lines_from(s: Seq<char>, start: nat) -> Seq<Seq<char>>
    decreases s.len() + 1 - start,
{
    if start >= s.len() {
        seq![]
    } else {
        let end = line_end(s, start);
        proof {
            lemma_line_end(s, start);
        }
        seq![plain_line(s.subrange(start as int, end as int), end < s.len())] + lines_from(
            s,
            end + 1,
        )
    }
}

/// Splits a text into its lines.
pub fn lines(s: &str) -> (r: Vec<String>)
    ensures
        texts(r@) == lines_from(s@, 0),
{
    let list = characters(s);
    let mut found: Vec<String> = Vec::new();
    let mut start: usize = 0;
    while start < list.len()
        invariant
            list@ == s@,
            start <= list@.len(),
            lines_from(s@, 0) =~= texts(found@) + lines_from(s@, start as nat),
        decreases list@.len() - start,
    {
        let mut end: usize = start;
        while end < list.len() && list[end] != '\n'
            invariant
                list@ == s@,
                start <= end <= list@.len(),
                line_end(s@, start as nat) == line_end(s@, end as nat),
            decreases list@.len() - end,
        {
            end = end + 1;
        }
        let ghost known = found@;
        let mut cut: usize = end;
        if end < list.len() && end > start && list[end - 1] == '\r' {
            cut = end - 1;
        }
        let part = vstd::slice::slice_subrange(list.as_slice(), start, cut);
        let line = gathered(part);
        assert(line@ =~= plain_line(s@.subrange(start as int, end as int), end < s@.len()));
        found.push(line);
        assert(texts(found@) =~= texts(known).push(line@));
        if end < list.len() {
            start = end + 1;
        } else {
            start = end;
            assert(lines_from(s@, start as nat) =~= lines_from(s@, (end + 1) as nat));
        }
    }
    found
}

/// The first place at or behind `start` that holds no white space, or the end.
pub open spec fn solid_start(s: Seq<char>, start: nat) -> nat
    decreases s.len() - start,
{
    if start >= s.len() {
        s.len()
    } else if !blank(s[start as int]) {
        start
    } else {
        solid_start(s, start + 1)
    }
}

/// The place behind the last character before `end` that is no white space.
pub open spec fn solid_end(s: Seq<char>, end: nat) -> nat
    decreases end,
{
    if end == 0 {
        0
    } else if !blank(s[end - 1]) {
        end
    } else {
        solid_end(s, (end - 1) as nat)
    }
}

/// A text without white space at its ends.
pub open spec fn trimmed(s: Seq<char>) -> Seq<char> {
    let start = solid_start(s, 0);
    let end = solid_end(s, s.len());
    if start < end {
        s.subrange(start as int, end as int)
    } else {
        seq![]
    }
}

/// Takes the white space at the ends of a text away.
pub fn trim(s: &str) -> (r: String)
    ensures
        r@ == trimmed(s@),
{
    let list = characters(s);
    let mut start: usize = 0;
    while start < list.len() && is_blank_char(list[start])
        invariant
            list@ == s@,
            start <= list@.len(),
            solid_start(s@, 0) == solid_start(s@, start as nat),
        decreases list@.len() - start,
    {
        start = start + 1;
    }
    let mut end: usize = list.len();
    while end > 0 && is_blank_char(list[end - 1])
        invariant
            list@ == s@,
            end <= list@.len(),
            solid_end(s@, s@.len()) == solid_end(s@, end as nat),
        decreases end,
    {
        end = end - 1;
    }
    if start < end {
        let part = vstd::slice::slice_subrange(list.as_slice(), start, end);
        gathered(part)
    } else {
        String::new()
    }
}

/// The number that a row of decimal digits spells.
pub open spec fn digits_value(s: Seq<char>) -> Option<nat>
    decreases s.len(),
{
    if s.len() == 0 {
        Some(0)
    } else {
        let last = s.last() as int;
        match digits_value(s.drop_last()) {
            None => None,
            Some(value) => if 48 <= last <= 57 {
                Some((10 * value + (last - 48)) as nat)
            } else {
                None
            },
        }
    }
}

/// The number that a text spells: decimal digits, with or without a plus sign,
/// and no more than 64 bits hold.
pub open spec fn spelled_number(s: Seq<char>) -> Option<u64> {
    let body = if s.len() > 0 && s[0] == '+' {
        s.skip(1)
    } else {
        s
    };
    match digits_value(body) {
        None => None,
        Some(value) => if body.len() > 0 && value <= u64::MAX {
            Some(value as u64)
        } else {
            None
        },
    }
}

fn figure(c: char) -> (r: u32)
    ensures
        r == c as int,
{
    c as u32
}

fn digits_number(list: &[char]) -> (r: Option<u64>)
    ensures
        r == (match digits_value(list@) {
            None => None,
            Some(value) => if value <= u64::MAX {
                Some(value as u64)
            } else {
                None
            },
        }),
{
    let mut value: u64 = 0;
    let mut fits: bool = true;
    let mut digital: bool = true;
    let mut i: usize = 0;
    assert(list@.take(0) =~= seq![]);
    while i < list.len()
        invariant
            i <= list@.len(),
            match digits_value(list@.take(i as int)) {
                None => !digital,
                Some(known) => digital && (if fits {
                    known == value
                } else {
                    known > u64::MAX
                }),
            },
        decreases list@.len() - i,
    {
        assert(list@.take(i + 1).drop_last() =~= list@.take(i as int));
        let code: u32 = figure(list[i]);
        if 48 <= code && code <= 57 {
            let grown: u128 = 10 * (value as u128) + (code - 48) as u128;
            if grown > u64::MAX as u128 {
                fits = false;
            } else {
                value = grown as u64;
            }
        } else {
            digital = false;
        }
        i = i + 1;
    }
    assert(list@.take(i as int) =~= list@);
    if digital && fits {
        Some(value)
    } else {
        None
    }
}

/// Reads a number of 64 bits.
pub fn parse_number(s: &str) -> (r: Option<u64>)
    ensures
        r == spelled_number(s@),
{
    let list = characters(s);
    let mut start: usize = 0;
    if list.len() > 0 && list[0] == '+' {
        start = 1;
    }
    let part = vstd::slice::slice_subrange(list.as_slice(), start, list.len());
    assert(part@ =~= (if s@.len() > 0 && s@[0] == '+' {
        s@.skip(1)
    } else {
        s@
    }));
    if part.len() == 0 {
        return None;
    }
    digits_number(part)
}

/// A text behind another that it begins with.
pub open spec fn behind(s: Seq<char>, prefix: Seq<char>) -> Option<Seq<char>> {
    if begins(s, prefix) {
        Some(s.skip(prefix.len() as int))
    } else {
        None
    }
}

/// Takes the beginning of a text away.
pub fn strip_beginning(s: &str, prefix: &str) -> (r: Option<String>)
    ensures
        optional_text(r) == behind(s@, prefix@),
{
    if !starts_with(s, prefix) {
        return None;
    }
    let list = characters(s);
    let cut = characters(prefix);
    let part = vstd::slice::slice_subrange(list.as_slice(), cut.len(), list.len());
    assert(part@ =~= s@.skip(prefix@.len() as int));
    Some(gathered(part))
}

/// A row of one character.
pub open spec fn row(c: char, count: nat) -> Seq<char> {
    Seq::new(count, |i: int| c)
}

/// What is missing of a width.
pub open spec fn shortfall(s: Seq<char>, width: nat) -> nat {
    if s.len() < width {
        (width - s.len()) as nat
    } else {
        0
    }
}

/// Fills a text up to a width, in front or behind.
pub fn fill(s: &str, width: usize, with: char, in_front: bool) -> (r: String)
    ensures
        r@ == (if in_front {
            row(with, shortfall(s@, width as nat)) + s@
        } else {
            s@ + row(with, shortfall(s@, width as nat))
        }),
{
    let list = characters(s);
    let missing: usize = if list.len() < width {
        width - list.len()
    } else {
        0
    };
    let mut filler = String::new();
    let mut i: usize = 0;
    while i < missing
        invariant
            i <= missing,
            filler@ =~= row(with, i as nat),
        decreases missing - i,
    {
        filler.push(with);
        i = i + 1;
    }
    if in_front {
        text_pair(filler.as_str(), s)
    } else {
        text_pair(s, filler.as_str())
    }
}

/// A number that is spelled reads back as the number, with a plus in front too; its
/// spelling holds figures alone, and begins with a zero only for zero itself.
pub proof fn law_spelled_numbers_read_back(n: nat)
    ensures
        digits_value(digits(n)) == Some(n),
        n <= u64::MAX ==> spelled_number(digits(n)) == Some(n as u64),
        n <= u64::MAX ==> spelled_number(seq!['+'] + digits(n)) == Some(n as u64),
        digits(n).len() > 0,
        forall|i: int| 0 <= i < digits(n).len() ==> '0' <= #[trigger] digits(n)[i] <= '9',
        digits(n)[0] == '0' ==> n == 0 && digits(n).len() == 1,
    decreases n,
{
    let spelled = digits(n);
    if n < 10 {
        assert(spelled.drop_last() =~= seq![]);
        assert(digits_value(spelled.drop_last()) == Some(0nat));
        assert(spelled.last() == digit(n));
    } else {
        law_spelled_numbers_read_back(n / 10);
        assert(spelled.drop_last() =~= digits(n / 10));
        assert(spelled.last() == digit(n % 10));
        assert(spelled[0] == digits(n / 10)[0]);
        assert forall|i: int| 0 <= i < spelled.len() implies '0' <= #[trigger] spelled[i] <= '9' by {
            if i < spelled.len() - 1 {
                assert(spelled[i] == digits(n / 10)[i]);
            }
        }
    }
    assert((seq!['+'] + spelled).skip(1) =~= spelled);
    assert('0' <= spelled[0]);
}

/// Only figures, with or without a plus in front, spell a number; and a number that is
/// read is below ten to as many places as it has figures.
pub proof fn law_only_figures_spell_numbers(s: Seq<char>)
    requires
        spelled_number(s) is Some,
    ensures
        s.len() > 0,
        '0' <= s.last() <= '9',
        s[0] == '+' || '0' <= s[0] <= '9',
        forall|i: int| 1 <= i < s.len() ==> '0' <= #[trigger] s[i] <= '9',
{
    let body = if s[0] == '+' {
        s.skip(1)
    } else {
        s
    };
    lemma_figures(body);
    assert(body.len() > 0);
    if s[0] == '+' {
        assert forall|i: int| 1 <= i < s.len() implies '0' <= #[trigger] s[i] <= '9' by {
            assert(s[i] == body[i - 1]);
        }
    }
}

proof fn lemma_figures(s: Seq<char>)
    requires
        digits_value(s) is Some,
    ensures
        forall|i: int| 0 <= i < s.len() ==> '0' <= #[trigger] s[i] <= '9',
    decreases s.len(),
{
    if s.len() > 0 {
        let before = s.drop_last();
        lemma_figures(before);
        assert forall|i: int| 0 <= i < s.len() implies '0' <= #[trigger] s[i] <= '9' by {
            if i < before.len() {
                assert(s[i] == before[i]);
            }
        }
    }
}

/// A small letter lies thirty-two behind its capital; making letters small changes the
/// capitals and nothing else, and leaves none.
pub proof fn law_capitals_become_small(c: char)
    ensures
        'A' <= c <= 'Z' <==> lower(c) != c,
        lower(c) != c ==> lower(c) as int - c as int == 'a' as int - 'A' as int,
        !('A' <= lower(c) <= 'Z'),
        lower(lower(c)) == lower(c),
{
}

/// Texts that differ in case alone are the same letters: the relation holds of a text
/// and itself, either way round, and from one to the next; and such texts are equally
/// long.
pub proof fn law_same_letters_is_an_equality(a: Seq<char>, b: Seq<char>, c: Seq<char>)
    ensures
        same_letters(a, a),
        same_letters(a, b) == same_letters(b, a),
        same_letters(a, b) && same_letters(b, c) ==> same_letters(a, c),
        same_letters(a, b) ==> a.len() == b.len(),
        same_letters(a, lowered(a)),
{
    assert(lowered(a).len() == a.len() && lowered(b).len() == b.len());
    assert(lowered(lowered(a)) =~= lowered(a)) by {
        assert forall|i: int| 0 <= i < a.len() implies lowered(lowered(a))[i] == lowered(a)[i] by {
            law_capitals_become_small(a[i]);
        }
    }
}

/// Among the first hundred and twenty-eight characters the white space is the blank and
/// the five from the tab to the carriage return.
pub proof fn law_white_space(c: char)
    requires
        (c as u32) < 128,
    ensures
        blank(c) <==> c == ' ' || '\t' <= c <= '\r',
{
}

/// A text is what is left of it when it is trimmed, between white space; and what is
/// left does not begin or end with white space, so that trimming it changes nothing.
pub proof fn law_trimming_takes_white_space_off(s: Seq<char>)
    ensures
        ({
            let left = trimmed(s);
            &&& exists|before: Seq<char>, after: Seq<char>|
                #![trigger all_blank(before), all_blank(after)]
                all_blank(before) && all_blank(after) && s == before + left + after
            &&& left.len() > 0 ==> !blank(left[0]) && !blank(left.last())
            &&& trimmed(left) == left
        }),
{
    let start = solid_start(s, 0);
    let end = solid_end(s, s.len());
    lemma_solid_start(s, 0);
    lemma_solid_end(s, s.len());
    let left = trimmed(s);
    if start < end {
        let before = s.take(start as int);
        let after = s.skip(end as int);
        assert(s =~= before + left + after);
        assert(all_blank(before) && all_blank(after));
        assert(left[0] == s[start as int]);
        assert(left.last() == s[end - 1]);
        lemma_solid_start(left, 0);
        lemma_solid_end(left, left.len());
        assert(solid_start(left, 0) == 0);
        assert(solid_end(left, left.len()) == left.len());
        assert(trimmed(left) =~= left);
    } else {
        assert(all_blank(s)) by {
            assert forall|i: int| 0 <= i < s.len() implies blank(#[trigger] s[i]) by {
                if i >= start {
                    assert(end <= i);
                }
            }
        }
        let after: Seq<char> = seq![];
        assert(all_blank(after));
        assert(s =~= s + left + after);
        assert(trimmed(left) =~= left);
    }
}

proof fn lemma_solid_start(s: Seq<char>, start: nat)
    requires
        start <= s.len(),
    ensures
        start <= solid_start(s, start) <= s.len(),
        solid_start(s, start) < s.len() ==> !blank(s[solid_start(s, start) as int]),
        forall|i: int| start <= i < solid_start(s, start) ==> blank(#[trigger] s[i]),
    decreases s.len() - start,
{
    if start < s.len() && blank(s[start as int]) {
        lemma_solid_start(s, start + 1);
        assert forall|i: int| start <= i < solid_start(s, start) implies blank(#[trigger] s[i]) by {
            if i > start {
                assert(start + 1 <= i);
            }
        }
    }
}

proof fn lemma_solid_end(s: Seq<char>, end: nat)
    requires
        end <= s.len(),
    ensures
        solid_end(s, end) <= end,
        solid_end(s, end) > 0 ==> !blank(s[solid_end(s, end) - 1]),
        forall|i: int| solid_end(s, end) <= i < end ==> blank(#[trigger] s[i]),
    decreases end,
{
    if end > 0 && blank(s[end - 1]) {
        lemma_solid_end(s, (end - 1) as nat);
    }
}

/// A text without a line feed is one line, unless it is empty; a line, a line feed and a
/// text are that line, without the carriage return at its end, and the lines of the text.
pub proof fn law_lines_end_at_line_feeds(line: Seq<char>, rest: Seq<char>)
    requires
        !line.contains('\n'),
    ensures
        lines_from(line, 0) == (if line.len() == 0 {
            seq![]
        } else {
            seq![line]
        }),
        ({
            let all = lines_from(line + seq!['\n'] + rest, 0);
            let bare = if line.len() > 0 && line.last() == '\r' {
                line.drop_last()
            } else {
                line
            };
            all == seq![bare] + lines_from(rest, 0)
        }),
{
    lemma_no_line_end(line, 0);
    if line.len() > 0 {
        assert(line.subrange(0, line.len() as int) =~= line);
        assert(lines_from(line, line.len() + 1) =~= seq![]);
        assert(lines_from(line, 0) =~= seq![line]);
    }
    let whole = line + seq!['\n'] + rest;
    lemma_line_end_at(whole, 0, line.len());
    assert(whole.subrange(0, line.len() as int) =~= line);
    lemma_lines_of_rest(whole, line.len() + 1);
    assert(whole.skip(line.len() as int + 1) =~= rest);
}

proof fn lemma_no_line_end(s: Seq<char>, start: nat)
    requires
        !s.contains('\n'),
        start <= s.len(),
    ensures
        line_end(s, start) == s.len(),
    decreases s.len() - start,
{
    if start < s.len() {
        assert(s.contains(s[start as int]));
        lemma_no_line_end(s, start + 1);
    }
}

proof fn lemma_line_end_at(whole: Seq<char>, start: nat, place: nat)
    requires
        start <= place < whole.len(),
        whole[place as int] == '\n',
        !whole.take(place as int).contains('\n'),
    ensures
        line_end(whole, start) == place,
    decreases place - start,
{
    if start < place {
        assert(whole.take(place as int)[start as int] == whole[start as int]);
        assert(whole.take(place as int).contains(whole[start as int]));
        lemma_line_end_at(whole, start + 1, place);
    }
}

proof fn lemma_line_end_behind(s: Seq<char>, skipped: nat, start: nat)
    requires
        skipped + start <= s.len(),
    ensures
        line_end(s, skipped + start) == skipped + line_end(s.skip(skipped as int), start),
    decreases s.len() - start,
{
    let rest = s.skip(skipped as int);
    if start < rest.len() {
        assert(rest[start as int] == s[(skipped + start) as int]);
        if rest[start as int] != '\n' {
            lemma_line_end_behind(s, skipped, start + 1);
        }
    }
}

proof fn lemma_lines_behind(s: Seq<char>, skipped: nat, start: nat)
    requires
        skipped <= s.len(),
    ensures
        lines_from(s, skipped + start) == lines_from(s.skip(skipped as int), start),
    decreases s.len() + 1 - start,
{
    let rest = s.skip(skipped as int);
    if start < rest.len() {
        lemma_line_end_behind(s, skipped, start);
        let end = line_end(rest, start);
        lemma_line_end(rest, start);
        assert(rest.subrange(start as int, end as int) =~= s.subrange(
            (skipped + start) as int,
            (skipped + end) as int,
        ));
        lemma_lines_behind(s, skipped, end + 1);
        assert(skipped + (end + 1) == skipped + end + 1);
    }
}

proof fn lemma_lines_of_rest(s: Seq<char>, skipped: nat)
    requires
        skipped <= s.len(),
    ensures
        lines_from(s, skipped) == lines_from(s.skip(skipped as int), 0),
{
    lemma_lines_behind(s, skipped, 0);
}

/// What is behind a beginning is the rest: put together they are the text, and whatever
/// is put behind a text is behind it.
pub proof fn law_a_beginning_and_the_rest_are_the_text(s: Seq<char>, prefix: Seq<char>)
    ensures
        behind(prefix + s, prefix) == Some(s),
        behind(s, prefix) matches Some(rest) ==> s == prefix + rest,
        begins(s, prefix) == behind(s, prefix) is Some,
{
    assert((prefix + s).take(prefix.len() as int) =~= prefix);
    assert((prefix + s).skip(prefix.len() as int) =~= s);
    if begins(s, prefix) {
        assert(s =~= s.take(prefix.len() as int) + s.skip(prefix.len() as int));
    }
}

/// A text contains another exactly where it is that text between two others.
pub proof fn law_a_text_contains_its_parts(s: Seq<char>, part: Seq<char>)
    ensures
        contains(s, part) <==> exists|before: Seq<char>, after: Seq<char>|
            s == #[trigger] (before + part + after),
{
    if contains(s, part) {
        let place = choose|place: int| stands_at(s, part, place);
        let before = s.take(place);
        let after = s.skip(place + part.len());
        assert(s =~= before + part + after);
    }
    if exists|before: Seq<char>, after: Seq<char>| s == #[trigger] (before + part + after) {
        let (before, after) = choose|before: Seq<char>, after: Seq<char>|
            s == #[trigger] (before + part + after);
        assert(s.subrange(before.len() as int, before.len() as int + part.len()) =~= part);
        assert(stands_at(s, part, before.len() as int));
    }
}

/// What is missing of a width fills a text up to it; a text that is as wide or wider
/// stays as it is.
pub proof fn law_filling_reaches_the_width(s: Seq<char>, width: nat, with: char)
    ensures
        ({
            let filled = s + row(with, shortfall(s, width));
            &&& filled.len() >= width && filled.len() >= s.len()
            &&& filled.len() == width || filled == s
            &&& forall|i: int| s.len() <= i < filled.len() ==> #[trigger] filled[i] == with
        }),
{
    assert(s.len() >= width ==> s + row(with, shortfall(s, width)) =~= s);
}

/// Texts that are joined and split again at the separator are the texts, where none of
/// them holds it.
pub proof fn law_joining_loses_nothing(parts: Seq<Seq<char>>, c: char)
    requires
        parts.len() > 0,
        forall|i: int| 0 <= i < parts.len() ==> !(#[trigger] parts[i]).contains(c),
    ensures
        pieces(joined(parts, seq![c]), c) == parts,
    decreases parts.len(),
{
    let none: Seq<char> = seq![];
    if parts.len() == 1 {
        lemma_pieces_behind(none, parts[0], c);
        assert(none + parts[0] =~= parts[0]);
        assert(pieces(none, c) =~= seq![none]);
        assert(pieces(parts[0], c) =~= parts);
    } else {
        let front = parts.drop_last();
        assert forall|i: int| 0 <= i < front.len() implies !(#[trigger] front[i]).contains(c) by {
            assert(front[i] == parts[i]);
        }
        law_joining_loses_nothing(front, c);
        let text = joined(front, seq![c]);
        let ended = text + seq![c];
        assert(ended.drop_last() =~= text);
        assert(pieces(ended, c) =~= front.push(none));
        lemma_pieces_behind(ended, parts.last(), c);
        assert(joined(parts, seq![c]) =~= ended + parts.last());
        assert(none + parts.last() =~= parts.last());
        assert(pieces(joined(parts, seq![c]), c) =~= parts);
    }
}

/// What holds no separator goes to the last part.
proof fn lemma_pieces_behind(s: Seq<char>, more: Seq<char>, c: char)
    requires
        !more.contains(c),
    ensures
        ({
            let before = pieces(s, c);
            pieces(s + more, c) == before.drop_last().push(before.last() + more)
        }),
        pieces(s, c).len() > 0,
    decreases more.len(),
{
    lemma_some_piece(s, c);
    let before = pieces(s, c);
    if more.len() == 0 {
        assert(s + more =~= s);
        assert(before.last() + more =~= before.last());
        assert(before.drop_last().push(before.last()) =~= before);
    } else {
        let less = more.drop_last();
        assert(more.contains(more.last()));
        assert(!less.contains(c)) by {
            if less.contains(c) {
                let k = choose|k: int| 0 <= k < less.len() && less[k] == c;
                assert(more[k] == c);
            }
        }
        lemma_pieces_behind(s, less, c);
        let whole = s + more;
        assert(whole.drop_last() =~= s + less);
        assert(whole.last() == more.last());
        let mid = pieces(s + less, c);
        assert(mid.drop_last() =~= before.drop_last());
        assert(mid.last().push(more.last()) =~= before.last() + more);
    }
}

} // verus!
