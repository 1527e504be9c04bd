//! Splitting, trimming and spelling out text.

use vstd::prelude::*;

verus! {

/// `String::push`: the character is put behind those that the string has.
pub assume_specification[ String::push ](s: &mut String, c: char)
    ensures
        final(s)@ == old(s)@.push(c),
;

/// Whether `c` is white space: the characters with the Unicode property `White_Space`.
pub open spec fn is_white(c: char) -> bool {
    ||| '\u{9}' <= c <= '\u{d}'
    ||| c == '\u{20}'
    ||| c == '\u{85}'
    ||| c == '\u{a0}'
    ||| c == '\u{1680}'
    ||| '\u{2000}' <= c <= '\u{200a}'
    ||| c == '\u{2028}'
    ||| c == '\u{2029}'
    ||| c == '\u{202f}'
    ||| c == '\u{205f}'
    ||| c == '\u{3000}'
}

/// Whether `c` is white space.
pub fn white(c: char) -> (r: bool)
    ensures
        r == is_white(c),
{
    ('\u{9}' <= c && c <= '\u{d}') || c == '\u{20}' || c == '\u{85}' || c == '\u{a0}' || c
        == '\u{1680}' || ('\u{2000}' <= c && c <= '\u{200a}') || c == '\u{2028}' || c == '\u{2029}'
        || c == '\u{202f}' || c == '\u{205f}' || c == '\u{3000}'
}

/// The characters of `s`.
pub fn characters(s: &str) -> (r: Vec<char>)
    ensures
        r@ == s@,
{
    let mut r: Vec<char> = Vec::new();
    for c in it: s.chars()
        invariant
            r@ == it.seq().take(it.index()),
            it.seq() == s@,
    {
        r.push(c);
        proof {
            assert(it.seq().take(it.index() + 1) == it.seq().take(it.index()).push(c));
        }
    }
    proof {
        assert(s@.take(s@.len() as int) == s@);
    }
    r
}

/// The text of `chars` from `from` up to `to`.
pub fn text(chars: &Vec<char>, from: usize, to: usize) -> (r: String)
    requires
        from <= to <= chars@.len(),
    ensures
        r@ == chars@.subrange(from as int, to as int),
{
    let mut r = String::new();
    let mut i: usize = from;
    while i < to
        invariant
            from <= i <= to <= chars@.len(),
            r@ == chars@.subrange(from as int, i as int),
        decreases to - i,
    {
        r.push(chars[i]);
        proof {
            assert(chars@.subrange(from as int, i + 1) == chars@.subrange(
                from as int,
                i as int,
            ).push(chars@[i as int]));
        }
        i = i + 1;
    }
    r
}

/// Whether `s` holds nothing but white space.
pub open spec fn is_blank(s: Seq<char>) -> bool {
    forall|i: int| 0 <= i < s.len() ==> is_white(#[trigger] s[i])
}

/// Whether `s` holds nothing but white space.
pub fn blank(s: &str) -> (r: bool)
    ensures
        r == is_blank(s@),
{
    let chars = characters(s);
    let mut i: usize = 0;
    while i < chars.len()
        invariant
            i <= chars@.len(),
            chars@ == s@,
            forall|j: int| 0 <= j < i ==> is_white(#[trigger] s@[j]),
        decreases chars@.len() - i,
    {
        if !white(chars[i]) {
            return false;
        }
        i = i + 1;
    }
    true
}

/// `s` without the white space it begins with.
pub open spec fn skip_white(s: Seq<char>) -> Seq<char>
    decreases s.len(),
{
    if s.len() > 0 && is_white(s[0]) {
        skip_white(s.drop_first())
    } else {
        s
    }
}

/// `s` without the white space it ends with.
pub open spec fn drop_white(s: Seq<char>) -> Seq<char>
    decreases s.len(),
{
    if s.len() > 0 && is_white(s.last()) {
        drop_white(s.drop_last())
    } else {
        s
    }
}

/// `s` without the white space at both ends.
pub open spec fn trimmed(s: Seq<char>) -> Seq<char> {
    drop_white(skip_white(s))
}

/// `s` without the white space at both ends.
pub fn trim(s: &str) -> (r: String)
    ensures
        r@ == trimmed(s@),
{
    let chars = characters(s);
    let mut from: usize = 0;
    proof {
        assert(chars@.skip(0) == chars@);
    }
    while from < chars.len() && white(chars[from])
        invariant
            from <= chars@.len(),
            skip_white(chars@.skip(from as int)) == skip_white(chars@),
        decreases chars@.len() - from,
    {
        proof {
            assert(chars@.skip(from as int).drop_first() == chars@.skip(from + 1));
        }
        from = from + 1;
    }
    let mut to: usize = chars.len();
    proof {
        assert(chars@.subrange(from as int, to as int) == chars@.skip(from as int));
        assert(skip_white(chars@) == chars@.skip(from as int));
    }
    while from < to && white(chars[to - 1])
        invariant
            from <= to <= chars@.len(),
            drop_white(chars@.subrange(from as int, to as int)) == trimmed(chars@),
        decreases to - from,
    {
        proof {
            assert(chars@.subrange(from as int, to as int).drop_last() == chars@.subrange(
                from as int,
                to - 1,
            ));
        }
        to = to - 1;
    }
    text(&chars, from, to)
}

/// What is left of a text begins and ends with no white space.
pub proof fn law_trimmed_ends_are_not_white(s: Seq<char>)
    ensures
        trimmed(s).len() > 0 ==> !is_white(trimmed(s)[0]) && !is_white(trimmed(s).last()),
{
    lemma_skip_white(s);
    lemma_drop_white(skip_white(s));
}

/// Nothing is left of a text just where it is blank.
pub proof fn law_trimmed_is_empty_where_blank(s: Seq<char>)
    ensures
        trimmed(s).len() == 0 <==> is_blank(s),
{
    lemma_skip_white(s);
    lemma_drop_white(skip_white(s));
    if is_blank(s) {
        lemma_skip_blank(s);
    } else if trimmed(s).len() == 0 {
        lemma_skip_not_blank(s);
    }
}

proof fn lemma_skip_blank(s: Seq<char>)
    requires
        is_blank(s),
    ensures
        skip_white(s).len() == 0,
    decreases s.len(),
{
    if s.len() > 0 {
        assert(is_white(s[0]));
        assert forall|i: int| 0 <= i < s.drop_first().len() implies is_white(
            #[trigger] s.drop_first()[i],
        ) by {
            assert(is_white(s[i + 1]));
        }
        lemma_skip_blank(s.drop_first());
    }
}

proof fn lemma_skip_not_blank(s: Seq<char>)
    requires
        !is_blank(s),
    ensures
        skip_white(s).len() > 0,
    decreases s.len(),
{
    let i = choose|i: int| 0 <= i < s.len() && !is_white(#[trigger] s[i]);
    if is_white(s[0]) {
        assert(!is_white(s.drop_first()[i - 1]));
        lemma_skip_not_blank(s.drop_first());
    }
}

proof fn lemma_skip_white(s: Seq<char>)
    ensures
        skip_white(s).len() > 0 ==> !is_white(skip_white(s)[0]),
    decreases s.len(),
{
    if s.len() > 0 && is_white(s[0]) {
        lemma_skip_white(s.drop_first());
    }
}

proof fn lemma_drop_white(s: Seq<char>)
    ensures
        drop_white(s).len() > 0 ==> !is_white(drop_white(s).last()) && drop_white(s)[0] == s[0],
        s.len() > 0 && !is_white(s[0]) ==> drop_white(s).len() > 0,
    decreases s.len(),
{
    if s.len() > 0 && is_white(s.last()) {
        lemma_drop_white(s.drop_last());
    }
}

/// The pieces of `s` between the places where `c` stands: one more than there are such places.
pub open spec fn split_on(s: Seq<char>, c: char) -> Seq<Seq<char>>
    decreases s.len(),
{
    if s.len() == 0 {
        seq![Seq::empty()]
    } else {
        let pieces = split_on(s.drop_last(), c);
        if s.last() == c {
            pieces.push(Seq::empty())
        } else {
            pieces.update(pieces.len() - 1, pieces.last().push(s.last()))
        }
    }
}

/// What the strings say.
pub open spec fn strings(v: Seq<String>) -> Seq<Seq<char>> {
    Seq::new(v.len(), |i: int| v[i]@)
}

/// The pieces of `s` between the places where `c` stands.
pub fn split(s: &str, c: char) -> (r: Vec<String>)
    ensures
        strings(r@) == split_on(s@, c),
{
    let chars = characters(s);
    let mut done: Vec<String> = Vec::new();
    let mut current = String::new();
    let mut i: usize = 0;
    proof {
        assert(strings(done@).push(current@) =~= split_on(chars@.take(0), c));
    }
    while i < chars.len()
        invariant
            i <= chars@.len(),
            strings(done@).push(current@) == split_on(chars@.take(i as int), c),
        decreases chars@.len() - i,
    {
        let ghost before = strings(done@);
        let ghost partial = current@;
        proof {
            assert(chars@.take(i + 1).drop_last() == chars@.take(i as int));
            assert(chars@.take(i + 1).last() == chars@[i as int]);
        }
        if chars[i] == c {
            done.push(current);
            current = String::new();
            proof {
                assert(strings(done@) =~= before.push(partial));
                assert(strings(done@).push(current@) =~= split_on(chars@.take(i + 1), c));
            }
        } else {
            current.push(chars[i]);
            proof {
                assert(before.push(current@) =~= split_on(chars@.take(i + 1), c));
            }
        }
        i = i + 1;
    }
    let ghost before = strings(done@);
    let ghost partial = current@;
    done.push(current);
    proof {
        assert(strings(done@) =~= before.push(partial));
        assert(chars@.take(i as int) == s@);
    }
    done
}

/// `pieces` with `c` between each and the next.
pub open spec fn joined(pieces: Seq<Seq<char>>, c: char) -> Seq<char>
    decreases pieces.len(),
{
    if pieces.len() == 0 {
        Seq::empty()
    } else if pieces.len() == 1 {
        pieces[0]
    } else {
        joined(pieces.drop_last(), c).push(c) + pieces.last()
    }
}

/// The pieces, put together again with the separator between them, are the text.
pub proof fn law_split_joins_back(s: Seq<char>, c: char)
    ensures
        split_on(s, c).len() > 0,
        joined(split_on(s, c), c) == s,
    decreases s.len(),
{
    if s.len() > 0 {
        let rest = s.drop_last();
        law_split_joins_back(rest, c);
        let pieces = split_on(rest, c);
        let more = split_on(s, c);
        if s.last() == c {
            assert(more.drop_last() == pieces);
            assert(joined(more, c) =~= rest.push(c));
            assert(s =~= rest.push(c));
        } else {
            assert(more.drop_last() =~= pieces.drop_last());
            assert(joined(more, c) =~= joined(pieces, c).push(s.last()));
            assert(s =~= rest.push(s.last()));
        }
    } else {
        assert(joined(split_on(s, c), c) =~= s);
    }
}

/// No piece holds the separator.
pub proof fn law_pieces_hold_no_separator(s: Seq<char>, c: char, i: int)
    requires
        0 <= i < split_on(s, c).len(),
    ensures
        !split_on(s, c)[i].contains(c),
    decreases s.len(),
{
    if s.len() > 0 {
        let rest = s.drop_last();
        law_split_joins_back(rest, c);
        let pieces = split_on(rest, c);
        if s.last() == c {
            if i < pieces.len() {
                law_pieces_hold_no_separator(rest, c, i);
            }
        } else {
            law_pieces_hold_no_separator(rest, c, i);
            if i == pieces.len() - 1 {
                let longer = split_on(s, c)[i];
                assert(longer == pieces[i].push(s.last()));
                assert forall|j: int| 0 <= j < longer.len() implies longer[j] != c by {
                    if j < pieces[i].len() {
                        assert(pieces[i].contains(pieces[i][j]));
                    }
                }
            }
        }
    }
}

proof fn lemma_split_parts(a: Seq<char>, b: Seq<char>, c: char)
    ensures
        split_on(a.push(c) + b, c) == split_on(a, c) + split_on(b, c),
    decreases b.len(),
{
    let whole = a.push(c) + b;
    let left = split_on(a, c);
    let right = split_on(b, c);
    if b.len() == 0 {
        assert(whole =~= a.push(c));
        assert(whole.drop_last() =~= a);
        assert(split_on(whole, c) =~= left + right);
    } else {
        let rest = b.drop_last();
        lemma_split_parts(a, rest, c);
        law_split_joins_back(rest, c);
        assert(whole.drop_last() =~= a.push(c) + rest);
        assert(split_on(whole, c) =~= left + right);
    }
}

proof fn lemma_split_of_one(s: Seq<char>, c: char)
    requires
        !s.contains(c),
    ensures
        split_on(s, c) == seq![s],
    decreases s.len(),
{
    if s.len() > 0 {
        let rest = s.drop_last();
        assert(s.contains(s[s.len() - 1]));
        assert forall|i: int| 0 <= i < rest.len() implies rest[i] != c by {
            assert(s.contains(s[i]));
        }
        lemma_split_of_one(rest, c);
        assert(rest.push(s.last()) =~= s);
        assert(split_on(s, c) =~= seq![s]);
    } else {
        assert(s =~= Seq::empty());
    }
}

/// Pieces that do not hold the separator come back when what they were joined to is split.
pub proof fn law_join_splits_back(pieces: Seq<Seq<char>>, c: char)
    requires
        pieces.len() > 0,
        forall|i: int| 0 <= i < pieces.len() ==> !(#[trigger] pieces[i]).contains(c),
    ensures
        split_on(joined(pieces, c), c) == pieces,
    decreases pieces.len(),
{
    lemma_split_of_one(pieces.last(), c);
    if pieces.len() == 1 {
        assert(pieces =~= seq![pieces[0]]);
    } else {
        let rest = pieces.drop_last();
        law_join_splits_back(rest, c);
        lemma_split_parts(joined(rest, c), pieces.last(), c);
        assert(rest + seq![pieces.last()] =~= pieces);
    }
}

/// `line` without the carriage return it ends with, if it does.
pub open spec fn without_return(line: Seq<char>) -> Seq<char> {
    if line.len() > 0 && line.last() == '\r' {
        line.drop_last()
    } else {
        line
    }
}

/// The lines of `s`. A line ends at a line feed, or at a carriage return and a line feed; what
/// follows the last line feed is a line if there is anything.
pub open spec fn lines_of(s: Seq<char>) -> Seq<Seq<char>> {
    let pieces = split_on(s, '\n');
    let ended = Seq::new((pieces.len() - 1) as nat, |i: int| without_return(pieces[i]));
    if pieces.last().len() == 0 {
        ended
    } else {
        ended.push(pieces.last())
    }
}

/// No line holds a line feed.
pub proof fn law_lines_hold_no_line_feed(s: Seq<char>, i: int)
    requires
        0 <= i < lines_of(s).len(),
    ensures
        !lines_of(s)[i].contains('\n'),
{
    let pieces = split_on(s, '\n');
    law_split_joins_back(s, '\n');
    law_pieces_hold_no_separator(s, '\n', i);
    let line = lines_of(s)[i];
    assert forall|j: int| 0 <= j < line.len() implies line[j] != '\n' by {
        assert(line[j] == pieces[i][j]);
        assert(pieces[i].contains(pieces[i][j]));
    }
}

/// The lines of a text that is put behind another come behind those of the other, where that one
/// is empty or ends with a line feed.
pub proof fn law_lines_of_parts(a: Seq<char>, b: Seq<char>)
    requires
        a.len() == 0 || a.last() == '\n',
    ensures
        lines_of(a + b) == lines_of(a) + lines_of(b),
{
    if a.len() == 0 {
        assert(a + b =~= b);
        assert(lines_of(a) + lines_of(b) =~= lines_of(b));
    } else {
        let start = a.drop_last();
        assert(start.push('\n') =~= a);
        lemma_split_parts(start, b, '\n');
        law_split_joins_back(b, '\n');
        law_split_joins_back(start, '\n');
        assert(lines_of(a + b) =~= lines_of(a) + lines_of(b));
    }
}

/// The lines of `s`.
pub fn lines(s: &str) -> (r: Vec<String>)
    ensures
        strings(r@) == lines_of(s@),
{
    let pieces = split(s, '\n');
    proof {
        law_split_joins_back(s@, '\n');
        assert(pieces@.len() == strings(pieces@).len());
    }
    let ghost parts = split_on(s@, '\n');
    let mut r: Vec<String> = Vec::new();
    let last: usize = pieces.len() - 1;
    let mut i: usize = 0;
    while i < last
        invariant
            i <= last,
            last == pieces@.len() - 1,
            strings(pieces@) == parts,
            strings(r@) == Seq::new(i as nat, |j: int| without_return(parts[j])),
        decreases last - i,
    {
        let ghost before = strings(r@);
        let chars = characters(pieces[i].as_str());
        proof {
            assert(parts[i as int] == chars@);
        }
        let end: usize = if chars.len() > 0 && chars[chars.len() - 1] == '\r' {
            chars.len() - 1
        } else {
            chars.len()
        };
        let line = text(&chars, 0, end);
        proof {
            assert(line@ =~= without_return(parts[i as int]));
        }
        r.push(line);
        proof {
            assert(strings(r@) =~= before.push(line@));
            assert(strings(r@) =~= Seq::new((i + 1) as nat, |j: int| without_return(parts[j])));
        }
        i = i + 1;
    }
    let tail = pieces[last].clone();
    proof {
        assert(parts[last as int] == tail@);
    }
    if tail.as_str().is_empty() {
        return r;
    }
    let ghost before = strings(r@);
    let ghost said = tail@;
    r.push(tail);
    proof {
        assert(strings(r@) =~= before.push(said));
    }
    r
}

/// The first `n` items of `s`, or all of them where there are fewer.
pub open spec fn first<T>(s: Seq<T>, n: int) -> Seq<T> {
    if s.len() <= n {
        s
    } else {
        s.take(n)
    }
}

/// The first `n` characters of `s`, or all of it where there are fewer.
pub fn prefix(s: &str, n: usize) -> (r: String)
    ensures
        r@ == first(s@, n as int),
{
    let chars = characters(s);
    let end: usize = if chars.len() <= n {
        chars.len()
    } else {
        n
    };
    let r = text(&chars, 0, end);
    proof {
        assert(r@ =~= first(s@, n as int));
    }
    r
}

/// Copies of the first `n` strings, or of all where there are fewer.
pub fn first_strings(v: &Vec<String>, n: usize) -> (r: Vec<String>)
    ensures
        strings(r@) == first(strings(v@), n as int),
{
    let end: usize = if v.len() <= n {
        v.len()
    } else {
        n
    };
    let mut r: Vec<String> = Vec::new();
    let mut i: usize = 0;
    while i < end
        invariant
            i <= end <= v@.len(),
            strings(r@) == strings(v@).take(i as int),
        decreases end - i,
    {
        let ghost before = strings(r@);
        r.push(v[i].clone());
        proof {
            assert(strings(r@) =~= before.push(v@[i as int]@));
            assert(strings(r@) =~= strings(v@).take(i + 1));
        }
        i = i + 1;
    }
    proof {
        assert(strings(r@) =~= first(strings(v@), n as int));
    }
    r
}

/// `n` in decimal digits.
pub open spec fn decimal(n: nat) -> Seq<char>
    decreases n,
{
    let digit = (48 + n % 10) as char;
    if n < 10 {
        seq![digit]
    } else {
        decimal(n / 10).push(digit)
    }
}

/// Puts `n` in decimal digits behind `s`.
pub fn push_decimal(s: &mut String, n: usize)
    ensures
        final(s)@ == old(s)@ + decimal(n as nat),
    decreases n,
{
    let ghost before = s@;
    if n >= 10 {
        push_decimal(s, n / 10);
    }
    let digit: char = (48u8 + (n % 10) as u8) as char;
    s.push(digit);
    proof {
        assert(s@ =~= before + decimal(n as nat));
    }
}

/// What is trimmed off a text is white space at its two ends, and all of it: what is left is the
/// text from `w.0` up to `w.1`.
pub proof fn law_trimming_takes_off_the_ends(s: &str, r: String) -> (w: (int, int))
    requires
        call_ensures(trim, (s,), r),
    ensures
        r@ == trimmed(s@),
        0 <= w.0 <= w.1 <= s@.len(),
        r@ == s@.subrange(w.0, w.1),
        forall|i: int| 0 <= i < w.0 ==> is_white(#[trigger] s@[i]),
        forall|i: int| w.1 <= i < s@.len() ==> is_white(#[trigger] s@[i]),
        w.0 < w.1 ==> !is_white(s@[w.0]) && !is_white(s@[w.1 - 1]),
{
    lemma_trimmed_part(s@)
}

proof fn lemma_trimmed_part(s: Seq<char>) -> (w: (int, int))
    ensures
        0 <= w.0 <= w.1 <= s.len(),
        trimmed(s) == s.subrange(w.0, w.1),
        forall|i: int| 0 <= i < w.0 ==> is_white(#[trigger] s[i]),
        forall|i: int| w.1 <= i < s.len() ==> is_white(#[trigger] s[i]),
        w.0 < w.1 ==> !is_white(s[w.0]) && !is_white(s[w.1 - 1]),
{
    let from = lemma_skipped_part(s);
    let rest = skip_white(s);
    let to = lemma_dropped_part(rest);
    assert(trimmed(s) =~= s.subrange(from, from + to));
    assert forall|i: int| from + to <= i < s.len() implies is_white(#[trigger] s[i]) by {
        assert(is_white(rest[i - from]));
    }
    if to > 0 {
        assert(rest[0] == s[from]);
        assert(rest[to - 1] == s[from + to - 1]);
    }
    (from, from + to)
}

proof fn lemma_skipped_part(s: Seq<char>) -> (from: int)
    ensures
        0 <= from <= s.len(),
        skip_white(s) == s.skip(from),
        forall|i: int| 0 <= i < from ==> is_white(#[trigger] s[i]),
        from < s.len() ==> !is_white(s[from]),
    decreases s.len(),
{
    if s.len() > 0 && is_white(s[0]) {
        let rest = s.drop_first();
        let from = lemma_skipped_part(rest);
        assert(rest.skip(from) =~= s.skip(from + 1));
        assert forall|i: int| 0 <= i < from + 1 implies is_white(#[trigger] s[i]) by {
            if i > 0 {
                assert(is_white(rest[i - 1]));
            }
        }
        from + 1
    } else {
        assert(s.skip(0) =~= s);
        0
    }
}

proof fn lemma_dropped_part(s: Seq<char>) -> (to: int)
    ensures
        0 <= to <= s.len(),
        drop_white(s) == s.take(to),
        forall|i: int| to <= i < s.len() ==> is_white(#[trigger] s[i]),
        to > 0 ==> !is_white(s[to - 1]),
    decreases s.len(),
{
    if s.len() > 0 && is_white(s.last()) {
        let rest = s.drop_last();
        let to = lemma_dropped_part(rest);
        assert(rest.take(to) =~= s.take(to));
        assert forall|i: int| to <= i < s.len() implies is_white(#[trigger] s[i]) by {
            if i < rest.len() {
                assert(is_white(rest[i]));
            }
        }
        to
    } else {
        assert(s.take(s.len() as int) =~= s);
        s.len() as int
    }
}

/// A text is blank just where all its characters are white space.
pub proof fn law_blank_is_all_white(s: &str, r: bool)
    requires
        call_ensures(blank, (s,), r),
    ensures
        r == is_blank(s@),
        r <==> forall|i: int| 0 <= i < s@.len() ==> is_white(#[trigger] s@[i]),
{
}

/// White space is what the function says it is.
pub proof fn law_white_is_told(c: char, r: bool)
    requires
        call_ensures(white, (c,), r),
    ensures
        r == is_white(c),
{
}

/// A text is split at every place where the separator stands, and at no other: these places are
/// `cuts`, in ascending order, and the pieces are what stands before the first, between each and
/// the next, and behind the last.
pub proof fn law_split_cuts_at_every_separator(s: &str, c: char, r: Vec<String>) -> (cuts: Seq<int>)
    requires
        call_ensures(split, (s, c), r),
    ensures
        strings(r@) == split_on(s@, c),
        r@.len() == cuts.len() + 1,
        forall|i: int| 0 <= i < cuts.len() ==> 0 <= #[trigger] cuts[i] < s@.len(),
        forall|i: int, j: int|
            0 <= i < j < cuts.len() ==> #[trigger] cuts[i] < #[trigger] cuts[j],
        forall|p: int| 0 <= p < s@.len() ==> ((#[trigger] s@[p]) == c <==> cuts.contains(p)),
        forall|i: int|
            0 <= i <= cuts.len() ==> (#[trigger] r@[i])@ == s@.subrange(
                if i == 0 {
                    0
                } else {
                    cuts[i - 1] + 1
                },
                if i == cuts.len() {
                    s@.len() as int
                } else {
                    cuts[i]
                },
            ),
{
    let cuts = lemma_cuts(s@, c);
    assert(strings(r@).len() == r@.len());
    assert forall|i: int| 0 <= i <= cuts.len() implies (#[trigger] r@[i])@ == s@.subrange(
        if i == 0 {
            0
        } else {
            cuts[i - 1] + 1
        },
        if i == cuts.len() {
            s@.len() as int
        } else {
            cuts[i]
        },
    ) by {
        assert(strings(r@)[i] == split_on(s@, c)[i]);
    }
    cuts
}

/// The piece from one cut to the next.
spec fn piece(s: Seq<char>, cuts: Seq<int>, i: int) -> Seq<char> {
    s.subrange(
        if i == 0 {
            0
        } else {
            cuts[i - 1] + 1
        },
        if i == cuts.len() {
            s.len() as int
        } else {
            cuts[i]
        },
    )
}

proof fn lemma_cuts(s: Seq<char>, c: char) -> (cuts: Seq<int>)
    ensures
        split_on(s, c).len() == cuts.len() + 1,
        forall|i: int| 0 <= i < cuts.len() ==> 0 <= #[trigger] cuts[i] < s.len(),
        forall|i: int, j: int|
            0 <= i < j < cuts.len() ==> #[trigger] cuts[i] < #[trigger] cuts[j],
        forall|p: int| 0 <= p < s.len() ==> ((#[trigger] s[p]) == c <==> cuts.contains(p)),
        forall|i: int| 0 <= i <= cuts.len() ==> #[trigger] split_on(s, c)[i] == piece(s, cuts, i),
    decreases s.len(),
{
    if s.len() == 0 {
        let cuts = Seq::<int>::empty();
        assert(split_on(s, c)[0] =~= piece(s, cuts, 0));
        cuts
    } else {
        let rest = s.drop_last();
        let last = s.len() - 1;
        let earlier = lemma_cuts(rest, c);
        let pieces = split_on(rest, c);
        let cuts = if s.last() == c {
            earlier.push(last)
        } else {
            earlier
        };
        assert forall|p: int| 0 <= p < s.len() implies ((#[trigger] s[p]) == c
            <==> cuts.contains(p)) by {
            if p < last {
                assert(rest[p] == s[p]);
                if earlier.contains(p) {
                    let i = earlier.index_of(p);
                    assert(cuts[i] == p);
                }
                if cuts.contains(p) {
                    let i = cuts.index_of(p);
                    assert(earlier[i] == p);
                }
            } else {
                if s.last() == c {
                    assert(cuts[earlier.len() as int] == p);
                } else if cuts.contains(p) {
                    let i = cuts.index_of(p);
                    assert(earlier[i] < rest.len());
                }
            }
        }
        assert forall|i: int| 0 <= i <= cuts.len() implies #[trigger] split_on(s, c)[i] == piece(
            s,
            cuts,
            i,
        ) by {
            if i <= earlier.len() {
                assert(pieces[i] == piece(rest, earlier, i));
            }
            if i > 0 {
                assert(cuts[i - 1] < s.len());
            }
            if i < cuts.len() {
                assert(cuts[i] < s.len());
                if i > 0 {
                    assert(cuts[i - 1] < cuts[i]);
                }
            }
            assert(split_on(s, c)[i] =~= piece(s, cuts, i));
        }
        cuts
    }
}

/// Joining puts the separator between each piece and the next, and nothing else.
pub proof fn law_joining_puts_in_separators(pieces: Seq<Seq<char>>, p: Seq<char>, c: char)
    ensures
        joined(seq![p], c) == p,
        pieces.len() > 0 ==> joined(pieces.push(p), c) == joined(pieces, c).push(c) + p,
{
    if pieces.len() > 0 {
        assert(pieces.push(p).drop_last() =~= pieces);
    }
}

/// The lines of a text are its pieces between line feeds, each without the one carriage return that
/// it may end with. What follows the last line feed is a line only if there is anything, and keeps
/// its carriage return.
pub proof fn law_lines_are_the_pieces(s: &str, r: Vec<String>)
    requires
        call_ensures(lines, (s,), r),
    ensures
        ({
            let pieces = split_on(s@, '\n');
            let n = pieces.len() - 1;
            &&& strings(r@) == lines_of(s@)
            &&& r@.len() == if pieces[n].len() == 0 {
                n
            } else {
                n + 1
            }
            &&& forall|i: int|
                0 <= i < n ==> (#[trigger] r@[i])@ == if pieces[i].len() > 0
                    && pieces[i][pieces[i].len() - 1] == '\r' {
                    pieces[i].take(pieces[i].len() - 1)
                } else {
                    pieces[i]
                }
            &&& pieces[n].len() > 0 ==> r@[n]@ == pieces[n]
        }),
{
    let pieces = split_on(s@, '\n');
    let n = pieces.len() - 1;
    law_split_joins_back(s@, '\n');
    assert(strings(r@).len() == r@.len());
    assert forall|i: int| 0 <= i < n implies (#[trigger] r@[i])@ == if pieces[i].len() > 0
        && pieces[i][pieces[i].len() - 1] == '\r' {
        pieces[i].take(pieces[i].len() - 1)
    } else {
        pieces[i]
    } by {
        assert(strings(r@)[i] == lines_of(s@)[i]);
        assert(pieces[i].drop_last() =~= pieces[i].take(pieces[i].len() - 1));
    }
    if pieces[n].len() > 0 {
        assert(strings(r@)[n] == lines_of(s@)[n]);
    }
}

/// The first items are the items themselves, from the first on: as many as were asked for, or all
/// where there are fewer.
pub proof fn law_first_are_the_leading_items<T>(s: Seq<T>, n: nat)
    ensures
        first(s, n as int).len() == if n < s.len() {
            n
        } else {
            s.len()
        },
        forall|i: int|
            0 <= i < first(s, n as int).len() ==> #[trigger] first(s, n as int)[i] == s[i],
{
}

/// What a vector of strings says is, at each place, what the string there says.
pub proof fn law_strings_say_each(v: Seq<String>)
    ensures
        strings(v).len() == v.len(),
        forall|i: int| 0 <= i < v.len() ==> #[trigger] strings(v)[i] == v[i]@,
{
}

/// A number in decimal is its digits: one digit below ten, and otherwise the digits of its tenth
/// part and the last digit.
pub proof fn law_decimal_spells_the_digits(n: nat, d: nat)
    requires
        d < 10,
    ensures
        decimal(d) == seq![(48 + d) as char],
        n > 0 ==> decimal(10 * n + d) == decimal(n).push((48 + d) as char),
{
    if n > 0 {
        assert((10 * n + d) / 10 == n);
        assert((10 * n + d) % 10 == d);
    }
}

} // verus!
