//! Lines, fields and layer sizes: the parts of the text format that do not
//! depend on the scalar.

use vstd::prelude::*;

verus! {

/// `String::push` appends one character to the end of the string.
pub assume_specification[ String::push ](s: &mut String, c: char)
    ensures
        final(s)@ == old(s)@.push(c),
;

/// The texts that a sequence of strings holds.
pub open spec fn texts(lines: Seq<String>) -> Seq<Seq<char>> {
    Seq::new(lines.len(), |i: int| lines[i]@)
}

/// The lines of a text: a new line starts after every line feed, so a text
/// with `n` line feeds has `n + 1` lines, some of which may be empty.
pub open spec fn lines_of(s: Seq<char>) -> Seq<Seq<char>>
    decreases s.len(),
{
    if s.len() == 0 {
        seq![Seq::empty()]
    } else {
        let before = lines_of(s.drop_last());
        if s.last() == '\n' {
            before.push(Seq::empty())
        } else {
            before.update(before.len() - 1, before.last().push(s.last()))
        }
    }
}

/// The parts, with `sep` between each two neighbours.
pub open spec fn join(parts: Seq<Seq<char>>, sep: char) -> Seq<char>
    decreases parts.len(),
{
    if parts.len() == 0 {
        Seq::empty()
    } else if parts.len() == 1 {
        parts[0]
    } else {
        join(parts.drop_last(), sep).push(sep) + parts.last()
    }
}

/// Space, tab, line feed, form feed and carriage return separate fields.
pub open spec fn is_blank(c: char) -> bool {
    c == ' ' || c == '\t' || c == '\n' || c == '\x0C' || c == '\r'
}

/// The fields of a line: its longest runs of characters that are not blank.
pub open spec fn fields_of(s: Seq<char>) -> Seq<Seq<char>>
    decreases s.len(),
{
    if s.len() == 0 {
        Seq::empty()
    } else {
        let before = fields_of(s.drop_last());
        if is_blank(s.last()) {
            before
        } else if s.len() >= 2 && !is_blank(s[s.len() - 2]) {
            before.update(before.len() - 1, before.last().push(s.last()))
        } else {
            before.push(seq![s.last()])
        }
    }
}

/// One of the ten decimal digits.
pub open spec fn is_digit(c: char) -> bool {
    '0' <= c <= '9'
}

/// The number that a string of decimal digits denotes.
pub open spec fn digits_value(s: Seq<char>) -> nat
    decreases s.len(),
{
    if s.len() == 0 {
        0
    } else {
        10 * digits_value(s.drop_last()) + (s.last() as nat - '0' as nat) as nat
    }
}

/// Every character is a decimal digit.
pub open spec fn all_digits(s: Seq<char>) -> bool {
    forall|i: int| 0 <= i < s.len() ==> is_digit(#[trigger] s[i])
}

/// The digits of a field, without the plus sign that may stand before them.
pub open spec fn unsigned_part(s: Seq<char>) -> Seq<char> {
    if s.len() > 0 && s[0] == '+' {
        s.skip(1)
    } else {
        s
    }
}

/// The layer size that a field denotes: one or more decimal digits, with or
/// without a plus sign before them, whose value is at most `u32::MAX`.
pub open spec fn size_of_field(s: Seq<char>) -> Option<u32> {
    let digits = unsigned_part(s);
    if digits.len() > 0 && all_digits(digits) && digits_value(digits) <= u32::MAX {
        Some(digits_value(digits) as u32)
    } else {
        None
    }
}

/// The layer sizes that a line lists, if it is a header: two or more fields,
/// each of which denotes a layer size.
pub open spec fn sizes_of_line(line: Seq<char>) -> Option<Seq<u32>> {
    let fields = fields_of(line);
    if fields.len() >= 2 && (forall|i: int|
        0 <= i < fields.len() ==> (#[trigger] size_of_field(fields[i])) is Some) {
        Some(Seq::new(fields.len(), |i: int| size_of_field(fields[i])->0))
    } else {
        None
    }
}

/// The decimal digits of a number, without leading zeros.
pub open spec fn decimal(n: nat) -> Seq<char>
    decreases n,
{
    if n < 10 {
        seq![('0' as nat + n) as char]
    } else {
        decimal(n / 10).push(('0' as nat + n % 10) as char)
    }
}

/// The header line of a network with these layer sizes.
pub open spec fn header_of(sizes: Seq<u32>) -> Seq<char> {
    join(Seq::new(sizes.len(), |i: int| decimal(sizes[i] as nat)), ' ')
}

/// Line `at` is a header, and no line before it is one.
pub open spec fn is_first_header(lines: Seq<Seq<char>>, at: int) -> bool {
    &&& 0 <= at < lines.len()
    &&& sizes_of_line(lines[at]) is Some
    &&& forall|k: int| 0 <= k < at ==> (#[trigger] sizes_of_line(lines[k])) is None
}

/// No line is a header.
pub open spec fn has_no_header(lines: Seq<Seq<char>>) -> bool {
    forall|k: int| 0 <= k < lines.len() ==> (#[trigger] sizes_of_line(lines[k])) is None
}

/// Splits a text into its lines.
pub fn split_lines(text: &str) -> (lines: Vec<String>)
    ensures
        texts(lines@) == lines_of(text@),
{
    let mut lines: Vec<String> = Vec::new();
    let mut current = String::new();
    for c in it: text.chars()
        invariant
            it.seq() == text@,
            texts(lines@).push(current@) == lines_of(text@.take(it.index() as int)),
    {
        let ghost seen = text@.take(it.index() as int);
        let ghost next = text@.take(it.index() + 1);
        assert(next.drop_last() == seen);
        if c == '\n' {
            lines.push(current);
            current = String::new();
        } else {
            current.push(c);
        }
    }
    assert(text@.take(text@.len() as int) == text@);
    lines.push(current);
    lines
}

/// Whether `c` separates fields.
fn blank(c: char) -> (r: bool)
    ensures
        r == is_blank(c),
{
    c == ' ' || c == '\t' || c == '\n' || c == '\x0C' || c == '\r'
}

/// Splits a line into its fields.
pub fn split_fields(line: &str) -> (fields: Vec<String>)
    ensures
        texts(fields@) == fields_of(line@),
{
    let mut fields: Vec<String> = Vec::new();
    let mut current = String::new();
    let mut inside = false;
    for c in it: line.chars()
        invariant
            it.seq() == line@,
            inside <==> it.index() > 0 && !is_blank(line@[it.index() - 1]),
            !inside ==> texts(fields@) == fields_of(line@.take(it.index() as int)),
            inside ==> texts(fields@).push(current@) == fields_of(line@.take(it.index() as int)),
    {
        let ghost seen = line@.take(it.index() as int);
        let ghost next = line@.take(it.index() + 1);
        assert(next.drop_last() == seen);
        if blank(c) {
            if inside {
                fields.push(current);
                current = String::new();
            }
            inside = false;
        } else {
            if !inside {
                current = String::new();
            }
            current.push(c);
            inside = true;
        }
    }
    assert(line@.take(line@.len() as int) == line@);
    if inside {
        fields.push(current);
    }
    fields
}

/// The value of a digit string grows with every digit added to it.
proof fn lemma_digits_value_grows(s: Seq<char>, n: int)
    requires
        0 <= n <= s.len(),
        all_digits(s),
    ensures
        digits_value(s.take(n)) <= digits_value(s),
    decreases s.len() - n,
{
    if n < s.len() {
        assert(s.take(n + 1).drop_last() == s.take(n));
        lemma_digits_value_grows(s, n + 1);
    } else {
        assert(s.take(n) == s);
    }
}

/// Reads a field as a layer size.
pub fn parse_size(field: &str) -> (size: Option<u32>)
    ensures
        size == size_of_field(field@),
{
    let ghost digits = unsigned_part(field@);
    let ghost mut count: int = 0;
    let mut value: u64 = 0;
    let mut any = false;
    let mut first = true;
    let mut valid = true;
    for c in it: field.chars()
        invariant
            it.seq() == field@,
            digits == unsigned_part(field@),
            first <==> it.index() == 0,
            first ==> valid && count == 0,
            valid && !first ==> count + (field@.len() - digits.len()) == it.index(),
            valid ==> 0 <= count <= digits.len(),
            valid ==> (any <==> count > 0),
            valid ==> all_digits(digits.take(count)),
            valid ==> value == digits_value(digits.take(count)),
            valid ==> value <= u32::MAX,
            !valid ==> size_of_field(field@) is None,
    {
        if first && c == '+' {
            first = false;
        } else if valid {
            first = false;
            assert(digits[count] == c);
            assert(digits.take(count + 1).drop_last() == digits.take(count));
            if '0' <= c && c <= '9' {
                let d: u64 = (c as u32 - '0' as u32) as u64;
                let next: u64 = value * 10 + d;
                assert(next == digits_value(digits.take(count + 1)));
                if next > 4294967295u64 {
                    valid = false;
                    proof {
                        if all_digits(digits) {
                            lemma_digits_value_grows(digits, count + 1);
                        }
                    }
                } else {
                    value = next;
                    any = true;
                    proof {
                        count = count + 1;
                    }
                }
            } else {
                valid = false;
                assert(!is_digit(digits[count]));
            }
        }
    }
    if valid && any {
        assert(digits.take(count) == digits);
        Some(value as u32)
    } else {
        None
    }
}

/// Reads a line as a header.
pub fn parse_header(line: &str) -> (sizes: Option<Vec<u32>>)
    ensures
        sizes is Some <==> sizes_of_line(line@) is Some,
        sizes is Some ==> sizes->0@ == sizes_of_line(line@)->0,
{
    let fields = split_fields(line);
    if fields.len() < 2 {
        return None;
    }
    let ghost parts = fields_of(line@);
    let mut sizes: Vec<u32> = Vec::new();
    let mut i: usize = 0;
    while i < fields.len()
        invariant
            i <= fields.len(),
            fields.len() >= 2,
            texts(fields@) == parts,
            parts == fields_of(line@),
            sizes.len() == i,
            forall|k: int| 0 <= k < i ==> #[trigger] size_of_field(parts[k]) == Some(sizes[k]),
        decreases fields.len() - i,
    {
        match parse_size(fields[i].as_str()) {
            Some(n) => {
                sizes.push(n);
            },
            None => {
                assert(size_of_field(parts[i as int]) is None);
                return None;
            },
        }
        i += 1;
    }
    Some(sizes)
}

/// Appends the decimal digits of `n` to `out`.
pub fn push_decimal(out: &mut String, n: u32)
    ensures
        final(out)@ == old(out)@ + decimal(n as nat),
    decreases n,
{
    if n >= 10 {
        push_decimal(out, n / 10);
    }
    let d: u8 = (n % 10) as u8;
    out.push((48u8 + d) as char);
    assert('0' as nat == 48);
}

/// A text has at least one line.
proof fn lemma_lines_of_len(s: Seq<char>)
    ensures
        lines_of(s).len() >= 1,
    decreases s.len(),
{
    if s.len() > 0 {
        lemma_lines_of_len(s.drop_last());
    }
}

/// Characters other than the line feed lengthen the last line.
proof fn lemma_lines_of_append(s: Seq<char>, t: Seq<char>)
    requires
        !t.contains('\n'),
    ensures
        lines_of(s).len() >= 1,
        lines_of(s + t) == lines_of(s).update(lines_of(s).len() - 1, lines_of(s).last() + t),
    decreases t.len(),
{
    lemma_lines_of_len(s);
    let lines = lines_of(s);
    if t.len() == 0 {
        assert(s + t == s);
        assert(lines.update(lines.len() - 1, lines.last()) == lines);
    } else {
        let shorter = t.drop_last();
        assert(!shorter.contains('\n')) by {
            if shorter.contains('\n') {
                let i = choose|i: int| 0 <= i < shorter.len() && shorter[i] == '\n';
                assert(t[i] == '\n');
            }
        }
        lemma_lines_of_append(s, shorter);
        assert((s + t).drop_last() == s + shorter);
        assert(t[t.len() - 1] != '\n');
        assert(shorter.push(t.last()) == t);
    }
}

/// The lines of joined parts are the parts, where no part holds a line feed.
pub proof fn lemma_lines_of_join(parts: Seq<Seq<char>>)
    requires
        parts.len() >= 1,
        forall|i: int| 0 <= i < parts.len() ==> !(#[trigger] parts[i]).contains('\n'),
    ensures
        lines_of(join(parts, '\n')) == parts,
    decreases parts.len(),
{
    if parts.len() == 1 {
        let empty = Seq::<char>::empty();
        lemma_lines_of_append(empty, parts[0]);
        assert(empty + parts[0] == parts[0]);
        assert(lines_of(empty) == seq![empty]);
    } else {
        let front = parts.drop_last();
        assert forall|i: int| 0 <= i < front.len() implies !(#[trigger] front[i]).contains('\n') by {
            assert(front[i] == parts[i]);
        }
        lemma_lines_of_join(front);
        let head = join(front, '\n').push('\n');
        assert(head.drop_last() == join(front, '\n'));
        assert(lines_of(head) == front.push(Seq::empty()));
        lemma_lines_of_append(head, parts.last());
        assert(Seq::<char>::empty() + parts.last() == parts.last());
        assert(front.push(Seq::empty()).update(front.len() as int, parts.last()) == parts);
    }
}

/// A run of characters that are not blank, behind a blank or at the start,
/// is one more field.
proof fn lemma_fields_of_append(s: Seq<char>, t: Seq<char>)
    requires
        t.len() >= 1,
        forall|i: int| 0 <= i < t.len() ==> !is_blank(#[trigger] t[i]),
        s.len() == 0 || is_blank(s.last()),
    ensures
        fields_of(s + t) == fields_of(s).push(t),
    decreases t.len(),
{
    let shorter = t.drop_last();
    assert((s + t).drop_last() == s + shorter);
    assert((s + t).last() == t.last());
    if t.len() == 1 {
        assert(s + shorter == s);
        assert(seq![t.last()] == t);
        if s.len() > 0 {
            assert((s + t)[(s + t).len() - 2] == s.last());
        }
    } else {
        lemma_fields_of_append(s, shorter);
        assert((s + t)[(s + t).len() - 2] == t[t.len() - 2]);
        assert(shorter.push(t.last()) == t);
        assert(fields_of(s).push(shorter).update(fields_of(s).len() as int, t) == fields_of(s).push(
            t,
        ));
    }
}

/// The fields of parts joined by spaces are the parts, where every part
/// has at least one character and none that is blank.
pub proof fn lemma_fields_of_join(parts: Seq<Seq<char>>)
    requires
        parts.len() >= 1,
        forall|i: int| 0 <= i < parts.len() ==> (#[trigger] parts[i]).len() >= 1,
        forall|i: int, j: int|
            0 <= i < parts.len() && 0 <= j < parts[i].len() ==> !is_blank(#[trigger] parts[i][j]),
    ensures
        fields_of(join(parts, ' ')) == parts,
    decreases parts.len(),
{
    let empty = Seq::<char>::empty();
    if parts.len() == 1 {
        lemma_fields_of_append(empty, parts[0]);
        assert(empty + parts[0] == parts[0]);
        assert(Seq::<Seq<char>>::empty().push(parts[0]) == parts);
    } else {
        let front = parts.drop_last();
        assert forall|i: int, j: int| 0 <= i < front.len() && 0 <= j < front[i].len() implies !is_blank(
            #[trigger] front[i][j],
        ) by {}
        lemma_fields_of_join(front);
        let head = join(front, ' ').push(' ');
        assert(head.drop_last() == join(front, ' '));
        assert(fields_of(head) == front);
        lemma_fields_of_append(head, parts.last());
        assert(front.push(parts.last()) == parts);
    }
}

/// The decimal digits of a number denote the number, and are digits only.
proof fn lemma_decimal(n: nat)
    ensures
        decimal(n).len() >= 1,
        all_digits(decimal(n)),
        digits_value(decimal(n)) == n,
    decreases n,
{
    assert('0' as nat == 48);
    if n < 10 {
        let s = decimal(n);
        assert(digits_value(s.drop_last()) == 0);
    } else {
        lemma_decimal(n / 10);
        let s = decimal(n);
        assert(s.drop_last() == decimal(n / 10));
    }
}

/// The decimal digits of a layer size are read as that size.
pub proof fn lemma_size_of_decimal(n: u32)
    ensures
        size_of_field(decimal(n as nat)) == Some(n),
        decimal(n as nat).len() >= 1,
        forall|j: int| 0 <= j < decimal(n as nat).len() ==> !is_blank(#[trigger] decimal(n as nat)[j]),
        !decimal(n as nat).contains('\n'),
{
    lemma_decimal(n as nat);
    let s = decimal(n as nat);
    assert(unsigned_part(s) == s);
}

/// Joined parts hold a character only where a part does, or where it is
/// the separator.
proof fn lemma_join_contains(parts: Seq<Seq<char>>, sep: char, c: char)
    requires
        c != sep,
        forall|i: int| 0 <= i < parts.len() ==> !(#[trigger] parts[i]).contains(c),
    ensures
        !join(parts, sep).contains(c),
    decreases parts.len(),
{
    if parts.len() >= 2 {
        let front = parts.drop_last();
        lemma_join_contains(front, sep, c);
        let joined = join(parts, sep);
        if joined.contains(c) {
            let k = choose|k: int| 0 <= k < joined.len() && joined[k] == c;
            let head = join(front, sep);
            if k < head.len() {
            } else if k > head.len() {
                assert(parts.last()[k - head.len() - 1] == c);
            }
        }
    } else if parts.len() == 1 {
        assert(!parts[0].contains(c));
    }
}

/// A header line is read as the layer sizes it was written from.
pub proof fn lemma_header_reads_back(sizes: Seq<u32>)
    requires
        sizes.len() >= 2,
    ensures
        sizes_of_line(header_of(sizes)) == Some(sizes),
        !header_of(sizes).contains('\n'),
{
    let parts = Seq::new(sizes.len(), |i: int| decimal(sizes[i] as nat));
    assert forall|i: int| 0 <= i < parts.len() implies (#[trigger] parts[i]).len() >= 1
        && !parts[i].contains('\n') by {
        lemma_size_of_decimal(sizes[i]);
    }
    assert forall|i: int, j: int| 0 <= i < parts.len() && 0 <= j < parts[i].len() implies !is_blank(
        #[trigger] parts[i][j],
    ) by {
        lemma_size_of_decimal(sizes[i]);
    }
    lemma_fields_of_join(parts);
    lemma_join_contains(parts, ' ', '\n');
    assert forall|i: int| 0 <= i < parts.len() implies #[trigger] size_of_field(parts[i]) == Some(
        sizes[i],
    ) by {
        lemma_size_of_decimal(sizes[i]);
    }
    assert(sizes_of_line(header_of(sizes))->0 =~= sizes);
}

} // verus!
