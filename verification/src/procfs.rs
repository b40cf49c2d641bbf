//! Numbers out of the text files under `/proc`.
use vstd::prelude::*;

verus! {

/// Whether `c` has the Unicode property `White_Space`.
pub open spec fn is_white(c: char) -> bool {
    let u = c as int;
    ||| 0x9 <= u <= 0xd
    ||| u == 0x20
    ||| u == 0x85
    ||| u == 0xa0
    ||| u == 0x1680
    ||| 0x2000 <= u <= 0x200a
    ||| u == 0x2028
    ||| u == 0x2029
    ||| u == 0x202f
    ||| u == 0x205f
    ||| u == 0x3000
}

/// How many characters of `s` come before its first line break.
pub open spec fn line_len(s: Seq<char>) -> nat
    decreases s.len(),
{
    if s.len() == 0 || s[0] == '\n' {
        0
    } else {
        1 + line_len(s.skip(1))
    }
}

/// How many characters of white space `s` begins with.
pub open spec fn blank_len(s: Seq<char>) -> nat
    decreases s.len(),
{
    if s.len() == 0 || !is_white(s[0]) {
        0
    } else {
        1 + blank_len(s.skip(1))
    }
}

/// How many characters other than white space `s` begins with.
pub open spec fn word_len(s: Seq<char>) -> nat
    decreases s.len(),
{
    if s.len() == 0 || is_white(s[0]) {
        0
    } else {
        1 + word_len(s.skip(1))
    }
}

/// The first line of `text` that begins with `prefix`.
pub open spec fn find_line(text: Seq<char>, prefix: Seq<char>) -> Option<Seq<char>>
    decreases text.len(),
{
    let n = line_len(text);
    if prefix.is_prefix_of(text.take(n as int)) {
        Some(text.take(n as int))
    } else if n < text.len() {
        find_line(text.skip(n as int + 1), prefix)
    } else {
        None
    }
}

/// The word of `s`, words being parted by white space, that `k` others come before.
pub open spec fn nth_word(s: Seq<char>, k: nat) -> Option<Seq<char>>
    decreases k,
{
    let rest = s.skip(blank_len(s) as int);
    let n = word_len(rest) as int;
    if n == 0 {
        None
    } else if k == 0 {
        Some(rest.take(n))
    } else {
        nth_word(rest.skip(n), (k - 1) as nat)
    }
}

/// Whether `c` is one of the decimal digits.
pub open spec fn is_digit(c: char) -> bool {
    '0' <= c <= '9'
}

/// Whether `s` is made of decimal digits.
pub open spec fn all_digits(s: Seq<char>) -> bool {
    forall|k: int| 0 <= k < s.len() ==> is_digit(#[trigger] s[k])
}

/// The number that decimal digits stand for.
pub open spec fn number(s: Seq<char>) -> nat
    decreases s.len(),
{
    if s.len() == 0 {
        0
    } else {
        let d: nat = if is_digit(s.last()) {
            (s.last() as int - 48) as nat
        } else {
            0
        };
        number(s.drop_last()) * 10 + d
    }
}

/// The `u64` that a word stands for: decimal digits, after a plus sign or none.
pub open spec fn parsed(word: Seq<char>) -> Option<u64> {
    let digits = if word.len() > 0 && word[0] == '+' {
        word.skip(1)
    } else {
        word
    };
    if digits.len() > 0 && all_digits(digits) && number(digits) <= u64::MAX {
        Some(number(digits) as u64)
    } else {
        None
    }
}

/// The number in word `k` of `s`, or zero if there is none.
pub open spec fn number_at(s: Seq<char>, k: nat) -> u64 {
    match nth_word(s, k) {
        Some(word) => match parsed(word) {
            Some(n) => n,
            None => 0,
        },
        None => 0,
    }
}

/// The number behind a label at the beginning of a line, or zero if there is none.
pub open spec fn labelled(text: Seq<char>, label: Seq<char>) -> u64 {
    match find_line(text, label) {
        Some(line) => number_at(line, 1),
        None => 0,
    }
}

/// How many characters of `s` there are up to its last closing parenthesis, which counts
/// too; zero, if there is none.
pub open spec fn through_paren(s: Seq<char>) -> nat
    decreases s.len(),
{
    if s.len() == 0 || s.last() == ')' {
        s.len()
    } else {
        through_paren(s.drop_last())
    }
}

/// What comes after the last closing parenthesis; everything, if there is none.
pub open spec fn after_paren(s: Seq<char>) -> Seq<char> {
    s.skip(through_paren(s) as int)
}

fn chars_of(s: &str) -> (r: Vec<char>)
    ensures
        r@ == s@,
{
    let mut out: Vec<char> = Vec::new();
    for c in it: s.chars()
        invariant
            it.seq() == s@,
            out@ == it.seq().take(it.index() as int),
    {
        out.push(c);
    }
    out
}

fn white(c: char) -> (r: bool)
    ensures
        r == is_white(c),
{
    let u: u32 = c as u32;
    (0x9 <= u && u <= 0xd) || u == 0x20 || u == 0x85 || u == 0xa0 || u == 0x1680 || (0x2000 <= u
        && u <= 0x200a) || u == 0x2028 || u == 0x2029 || u == 0x202f || u == 0x205f || u == 0x3000
}

fn line_end(t: &Vec<char>, from: usize, to: usize) -> (r: usize)
    requires
        from <= to <= t@.len(),
    ensures
        r == from + line_len(t@.subrange(from as int, to as int)),
        from <= r <= to,
{
    let mut i: usize = from;
    while i < to && t[i] != '\n'
        invariant
            from <= i <= to <= t@.len(),
            from + line_len(t@.subrange(from as int, to as int)) == i + line_len(
                t@.subrange(i as int, to as int),
            ),
        decreases to - i,
    {
        assert(t@.subrange(i as int, to as int).skip(1) =~= t@.subrange(i + 1, to as int));
        i = i + 1;
    }
    i
}

fn blank_end(t: &Vec<char>, from: usize, to: usize) -> (r: usize)
    requires
        from <= to <= t@.len(),
    ensures
        r == from + blank_len(t@.subrange(from as int, to as int)),
        from <= r <= to,
{
    let mut i: usize = from;
    while i < to && white(t[i])
        invariant
            from <= i <= to <= t@.len(),
            from + blank_len(t@.subrange(from as int, to as int)) == i + blank_len(
                t@.subrange(i as int, to as int),
            ),
        decreases to - i,
    {
        assert(t@.subrange(i as int, to as int).skip(1) =~= t@.subrange(i + 1, to as int));
        i = i + 1;
    }
    i
}

fn word_end(t: &Vec<char>, from: usize, to: usize) -> (r: usize)
    requires
        from <= to <= t@.len(),
    ensures
        r == from + word_len(t@.subrange(from as int, to as int)),
        from <= r <= to,
{
    let mut i: usize = from;
    while i < to && !white(t[i])
        invariant
            from <= i <= to <= t@.len(),
            from + word_len(t@.subrange(from as int, to as int)) == i + word_len(
                t@.subrange(i as int, to as int),
            ),
        decreases to - i,
    {
        assert(t@.subrange(i as int, to as int).skip(1) =~= t@.subrange(i + 1, to as int));
        i = i + 1;
    }
    i
}

fn paren_end(t: &Vec<char>) -> (r: usize)
    ensures
        r == through_paren(t@),
        r <= t@.len(),
{
    let mut i: usize = t.len();
    assert(t@.take(i as int) =~= t@);
    while i > 0 && t[i - 1] != ')'
        invariant
            i <= t@.len(),
            through_paren(t@) == through_paren(t@.take(i as int)),
        decreases i,
    {
        assert(t@.take(i as int).drop_last() =~= t@.take(i - 1));
        i = i - 1;
    }
    i
}

fn begins_with(t: &Vec<char>, from: usize, to: usize, prefix: &Vec<char>) -> (r: bool)
    requires
        from <= to <= t@.len(),
    ensures
        r == prefix@.is_prefix_of(t@.subrange(from as int, to as int)),
{
    let ghost line = t@.subrange(from as int, to as int);
    if prefix.len() > to - from {
        return false;
    }
    let mut i: usize = 0;
    while i < prefix.len()
        invariant
            i <= prefix@.len() <= to - from,
            from <= to <= t@.len(),
            line == t@.subrange(from as int, to as int),
            forall|k: int| 0 <= k < i ==> prefix@[k] == line[k],
        decreases prefix@.len() - i,
    {
        if t[from + i] != prefix[i] {
            assert(line.take(prefix@.len() as int)[i as int] == line[i as int]);
            assert(line[i as int] != prefix@[i as int]);
            return false;
        }
        assert(line[i as int] == prefix@[i as int]);
        i = i + 1;
    }
    assert(line.take(prefix@.len() as int) =~= prefix@);
    true
}

fn locate_line(t: &Vec<char>, prefix: &Vec<char>) -> (r: Option<(usize, usize)>)
    ensures
        match r {
            Some((from, to)) => from <= to <= t@.len() && find_line(t@, prefix@) == Some(
                t@.subrange(from as int, to as int),
            ),
            None => find_line(t@, prefix@) is None,
        },
{
    let len: usize = t.len();
    let mut from: usize = 0;
    assert(t@.subrange(0, len as int) =~= t@);
    loop
        invariant
            from <= len == t@.len(),
            find_line(t@, prefix@) == find_line(t@.subrange(from as int, len as int), prefix@),
        decreases len - from,
    {
        let to: usize = line_end(t, from, len);
        let ghost rest = t@.subrange(from as int, len as int);
        assert(rest.take(to - from) =~= t@.subrange(from as int, to as int));
        if begins_with(t, from, to, prefix) {
            return Some((from, to));
        }
        if to == len {
            return None;
        }
        assert(rest.skip(to - from + 1) =~= t@.subrange(to + 1, len as int));
        from = to + 1;
    }
}

fn locate_word(t: &Vec<char>, from: usize, to: usize, k: usize) -> (r: Option<(usize, usize)>)
    requires
        from <= to <= t@.len(),
    ensures
        match r {
            Some((a, b)) => from <= a <= b <= to && nth_word(
                t@.subrange(from as int, to as int),
                k as nat,
            ) == Some(t@.subrange(a as int, b as int)),
            None => nth_word(t@.subrange(from as int, to as int), k as nat) is None,
        },
    decreases k,
{
    let ghost s = t@.subrange(from as int, to as int);
    let a: usize = blank_end(t, from, to);
    assert(s.skip(a - from) =~= t@.subrange(a as int, to as int));
    let b: usize = word_end(t, a, to);
    let ghost rest = t@.subrange(a as int, to as int);
    assert(rest.take(b - a) =~= t@.subrange(a as int, b as int));
    assert(rest.skip(b - a) =~= t@.subrange(b as int, to as int));
    if a == b {
        None
    } else if k == 0 {
        Some((a, b))
    } else {
        locate_word(t, b, to, k - 1)
    }
}

proof fn lemma_number_grows(s: Seq<char>, i: int)
    requires
        0 <= i <= s.len(),
    ensures
        number(s.take(i)) <= number(s),
    decreases s.len(),
{
    if i == s.len() {
        assert(s.take(i) =~= s);
    } else {
        assert(s.take(i) =~= s.drop_last().take(i));
        lemma_number_grows(s.drop_last(), i);
    }
}

fn parse_digits(t: &Vec<char>, from: usize, to: usize) -> (r: Option<u64>)
    requires
        from <= to <= t@.len(),
    ensures
        r == ({
            let digits = t@.subrange(from as int, to as int);
            if all_digits(digits) && number(digits) <= u64::MAX {
                Some(number(digits) as u64)
            } else {
                None
            }
        }),
{
    let ghost digits = t@.subrange(from as int, to as int);
    let mut n: u64 = 0;
    let mut i: usize = from;
    while i < to
        invariant
            from <= i <= to <= t@.len(),
            digits == t@.subrange(from as int, to as int),
            n == number(digits.take(i - from)),
            forall|k: int| 0 <= k < i - from ==> is_digit(digits[k]),
        decreases to - i,
    {
        let c: char = t[i];
        assert(c == digits[i - from]);
        if c < '0' || c > '9' {
            assert(!is_digit(digits[i - from]));
            return None;
        }
        let d: u64 = (c as u32 - 48) as u64;
        proof {
            assert(digits.take(i - from + 1).drop_last() =~= digits.take(i - from));
            assert(number(digits.take(i - from + 1)) == n * 10 + d);
            lemma_number_grows(digits, i - from + 1);
        }
        if n > (u64::MAX - d) / 10 {
            return None;
        }
        n = n * 10 + d;
        i = i + 1;
    }
    assert(digits.take(i - from) =~= digits);
    Some(n)
}

fn parse_word(t: &Vec<char>, from: usize, to: usize) -> (r: Option<u64>)
    requires
        from <= to <= t@.len(),
    ensures
        r == parsed(t@.subrange(from as int, to as int)),
{
    let ghost word = t@.subrange(from as int, to as int);
    if from < to && t[from] == '+' {
        assert(word.skip(1) =~= t@.subrange(from + 1, to as int));
        if from + 1 == to {
            None
        } else {
            parse_digits(t, from + 1, to)
        }
    } else if from == to {
        None
    } else {
        parse_digits(t, from, to)
    }
}

fn word_value(t: &Vec<char>, from: usize, to: usize, k: usize) -> (r: u64)
    requires
        from <= to <= t@.len(),
    ensures
        r == number_at(t@.subrange(from as int, to as int), k as nat),
{
    match locate_word(t, from, to, k) {
        Some((a, b)) => match parse_word(t, a, b) {
            Some(n) => n,
            None => 0,
        },
        None => 0,
    }
}

fn labelled_value(text: &str, label: &str) -> (r: u64)
    ensures
        r == labelled(text@, label@),
{
    let t = chars_of(text);
    match locate_line(&t, &chars_of(label)) {
        Some((from, to)) => word_value(&t, from, to, 1),
        None => 0,
    }
}

/// The resident set size in KiB, out of the text of `/proc/self/status`; zero if it
/// is not there.
pub fn vmrss_kib(status: &str) -> (r: u64)
    ensures
        r == labelled(status@, "VmRSS:"@),
{
    labelled_value(status, "VmRSS:")
}

/// The number of free huge pages, out of the text of `/proc/meminfo`; zero if it is
/// not there.
pub fn hugepages_free(meminfo: &str) -> (r: u64)
    ensures
        r == labelled(meminfo@, "HugePages_Free:"@),
{
    labelled_value(meminfo, "HugePages_Free:")
}

/// The number of minor faults, out of the text of `/proc/self/stat`; zero if it is
/// not there.
///
/// It is the tenth field of the file. The second one, the name of the command, stands
/// in parentheses and may hold some itself, so the fields are counted from the last
/// closing one.
pub fn minflt(stat: &str) -> (r: u64)
    ensures
        r == number_at(after_paren(stat@), 7),
{
    let t = chars_of(stat);
    let len: usize = t.len();
    let close: usize = paren_end(&t);
    assert(t@.skip(close as int) =~= t@.subrange(close as int, len as int));
    word_value(&t, close, len, 7)
}

proof fn lemma_decimal_is_digits(n: nat)
    ensures
        crate::text::decimal(n).len() > 0,
        all_digits(crate::text::decimal(n)),
        number(crate::text::decimal(n)) == n,
    decreases n,
{
    let s = crate::text::decimal(n);
    if n >= 10 {
        lemma_decimal_is_digits(n / 10);
        assert(s.drop_last() =~= crate::text::decimal(n / 10));
        assert forall|k: int| 0 <= k < s.len() implies is_digit(#[trigger] s[k]) by {
            if k < s.len() - 1 {
                assert(s[k] == s.drop_last()[k]);
            }
        }
    } else {
        assert(s.drop_last() =~= Seq::<char>::empty());
        assert(number(s.drop_last()) == 0);
    }
}

/// A number that is written in decimal is read back.
pub proof fn law_decimal_reads_back(n: u64)
    ensures
        parsed(crate::text::decimal(n as nat)) == Some(n),
{
    lemma_decimal_is_digits(n as nat);
    assert(is_digit(crate::text::decimal(n as nat)[0]));
}

/// Whether `s` holds no line break.
pub open spec fn on_one_line(s: Seq<char>) -> bool {
    forall|i: int| 0 <= i < s.len() ==> #[trigger] s[i] != '\n'
}

/// Whether `s` is made of white space.
pub open spec fn blank(s: Seq<char>) -> bool {
    forall|i: int| 0 <= i < s.len() ==> is_white(#[trigger] s[i])
}

/// Whether `s` is a word: some characters, none of them white space.
pub open spec fn a_word(s: Seq<char>) -> bool {
    s.len() > 0 && forall|i: int| 0 <= i < s.len() ==> !is_white(#[trigger] s[i])
}

/// Whether `s` is empty or begins with white space, so that a word before it has ended.
pub open spec fn ends_a_word(s: Seq<char>) -> bool {
    s.len() > 0 ==> is_white(s[0])
}

/// Whether `s` is empty or begins with a line break.
pub open spec fn ends_a_line(s: Seq<char>) -> bool {
    s.len() > 0 ==> s[0] == '\n'
}

/// Whether `a` is made of whole lines, none of which begins with `label`.
pub open spec fn lines_without(a: Seq<char>, label: Seq<char>) -> bool {
    &&& a.len() > 0 ==> a.last() == '\n'
    &&& forall|i: int|
        0 <= i < a.len() && (i == 0 || a[i - 1] == '\n') ==> !label.is_prefix_of(
            #[trigger] a.skip(i),
        )
}

/// `words`, each behind its `blanks`.
pub open spec fn spaced(blanks: Seq<Seq<char>>, words: Seq<Seq<char>>) -> Seq<char>
    decreases words.len(),
{
    if words.len() == 0 {
        Seq::empty()
    } else {
        blanks[0] + words[0] + spaced(blanks.skip(1), words.skip(1))
    }
}

/// The white space at the beginning of a text is all of it, and stops at the first
/// character that is none.
pub proof fn law_blanks_are_counted(b: Seq<char>, rest: Seq<char>)
    requires
        blank(b),
        rest.len() > 0 ==> !is_white(rest[0]),
    ensures
        blank_len(b + rest) == b.len(),
    decreases b.len(),
{
    if b.len() > 0 {
        assert((b + rest).skip(1) =~= b.skip(1) + rest);
        law_blanks_are_counted(b.skip(1), rest);
    } else {
        assert(b + rest =~= rest);
    }
}

/// A word reaches up to white space, or to the end.
pub proof fn law_word_is_measured(w: Seq<char>, rest: Seq<char>)
    requires
        forall|i: int| 0 <= i < w.len() ==> !is_white(#[trigger] w[i]),
        ends_a_word(rest),
    ensures
        word_len(w + rest) == w.len(),
    decreases w.len(),
{
    if w.len() > 0 {
        assert((w + rest).skip(1) =~= w.skip(1) + rest);
        law_word_is_measured(w.skip(1), rest);
    } else {
        assert(w + rest =~= rest);
    }
}

/// A line reaches up to a line break, or to the end.
pub proof fn law_line_is_measured(line: Seq<char>, rest: Seq<char>)
    requires
        on_one_line(line),
        ends_a_line(rest),
    ensures
        line_len(line + rest) == line.len(),
    decreases line.len(),
{
    if line.len() > 0 {
        assert((line + rest).skip(1) =~= line.skip(1) + rest);
        law_line_is_measured(line.skip(1), rest);
    } else {
        assert(line + rest =~= rest);
    }
}

/// Words are found in order: the first one behind the blanks, and the others in what
/// follows it. Where there is nothing but white space, there is none.
pub proof fn law_words_in_order(b: Seq<char>, w: Seq<char>, rest: Seq<char>, k: nat)
    requires
        blank(b),
        a_word(w),
        ends_a_word(rest),
    ensures
        nth_word(b + w + rest, 0) == Some(w),
        nth_word(b + w + rest, k + 1) == nth_word(rest, k),
        nth_word(b, k) is None,
{
    let s = b + w + rest;
    assert(s =~= b + (w + rest));
    law_blanks_are_counted(b, w + rest);
    assert(s.skip(b.len() as int) =~= w + rest);
    law_word_is_measured(w, rest);
    assert((w + rest).take(w.len() as int) =~= w);
    assert((w + rest).skip(w.len() as int) =~= rest);
    let none = Seq::<char>::empty();
    assert(b + none =~= b);
    law_blanks_are_counted(b, none);
    assert(b.skip(b.len() as int) =~= none);
    assert(word_len(none) == 0);
}

/// The words of a text are counted from zero, however many there are and however long.
pub proof fn law_words_are_numbered(
    blanks: Seq<Seq<char>>,
    words: Seq<Seq<char>>,
    rest: Seq<char>,
    k: nat,
)
    requires
        blanks.len() == words.len(),
        forall|i: int| 0 <= i < words.len() ==> a_word(#[trigger] words[i]),
        forall|i: int|
            0 <= i < blanks.len() ==> blank(#[trigger] blanks[i]) && blanks[i].len() > 0,
        ends_a_word(rest),
    ensures
        nth_word(spaced(blanks, words) + rest, k) == (if k < words.len() {
            Some(words[k as int])
        } else {
            nth_word(rest, (k - words.len()) as nat)
        }),
    decreases words.len(),
{
    let text = spaced(blanks, words) + rest;
    if words.len() == 0 {
        assert(text =~= rest);
    } else {
        let more = spaced(blanks.skip(1), words.skip(1)) + rest;
        assert(text =~= blanks[0] + words[0] + more);
        assert(ends_a_word(more)) by {
            if words.len() > 1 {
                assert(blanks.skip(1)[0] == blanks[1]);
                assert(more[0] == blanks[1][0]);
            } else {
                assert(more =~= rest);
            }
        }
        assert(a_word(words[0]) && blank(blanks[0]));
        assert forall|i: int| 0 <= i < words.skip(1).len() implies a_word(
            #[trigger] words.skip(1)[i],
        ) by {
            assert(words.skip(1)[i] == words[i + 1]);
        }
        assert forall|i: int| 0 <= i < blanks.skip(1).len() implies blank(
            #[trigger] blanks.skip(1)[i],
        ) && blanks.skip(1)[i].len() > 0 by {
            assert(blanks.skip(1)[i] == blanks[i + 1]);
        }
        let e = (if k > 0 {
            k - 1
        } else {
            0
        }) as nat;
        law_words_in_order(blanks[0], words[0], more, e);
        law_words_are_numbered(blanks.skip(1), words.skip(1), rest, e);
    }
}

proof fn lemma_first_line(a: Seq<char>)
    requires
        a.len() > 0,
        a.last() == '\n',
    ensures
        line_len(a) < a.len(),
        a[line_len(a) as int] == '\n',
        on_one_line(a.take(line_len(a) as int)),
    decreases a.len(),
{
    if a[0] != '\n' {
        let more = a.skip(1);
        assert(a.len() > 1);
        assert(more.last() == a.last());
        lemma_first_line(more);
        let n = line_len(more) as int;
        assert(a[n + 1] == more[n]);
        assert forall|i: int| 0 <= i < n + 1 implies #[trigger] a.take(n + 1)[i] != '\n' by {
            if i > 0 {
                assert(a.take(n + 1)[i] == more.take(n)[i - 1]);
            }
        }
    }
}

/// Where the first line of `a` is passed over.
proof fn lemma_pass_over(a: Seq<char>, rest: Seq<char>, label: Seq<char>)
    requires
        a.len() > 0,
        lines_without(a, label),
    ensures
        ({
            let n = line_len(a) as int;
            &&& 0 <= n < a.len()
            &&& lines_without(a.skip(n + 1), label)
            &&& find_line(a + rest, label) == find_line(a.skip(n + 1) + rest, label)
        }),
{
    lemma_first_line(a);
    let n = line_len(a) as int;
    let line = a.take(n);
    let text = a + rest;
    let tail = a.skip(n) + rest;
    assert(text =~= line + tail);
    assert(tail[0] == a[n]);
    law_line_is_measured(line, tail);
    assert(text.take(n) =~= line);
    assert(a.skip(0) =~= a);
    if label.is_prefix_of(line) {
        assert(label =~= a.take(label.len() as int)) by {
            assert(line.take(label.len() as int) =~= a.take(label.len() as int));
        }
        assert(label.is_prefix_of(a.skip(0)));
    }
    assert(text.skip(n + 1) =~= a.skip(n + 1) + rest);
    let b = a.skip(n + 1);
    assert forall|i: int| 0 <= i < b.len() && (i == 0 || b[i - 1] == '\n') implies !label.is_prefix_of(
        #[trigger] b.skip(i),
    ) by {
        assert(b.skip(i) =~= a.skip(i + n + 1));
        assert(i > 0 ==> b[i - 1] == a[i + n]);
        assert(!label.is_prefix_of(a.skip(i + n + 1)));
    }
}

/// The first line that begins with the label is found, whatever lines come before it, and
/// however many and long they are; the number is that in its second word.
pub proof fn law_line_is_found(
    a: Seq<char>,
    line: Seq<char>,
    rest: Seq<char>,
    label: Seq<char>,
)
    requires
        lines_without(a, label),
        label.is_prefix_of(line),
        on_one_line(line),
        ends_a_line(rest),
    ensures
        find_line(a + line + rest, label) == Some(line),
        labelled(a + line + rest, label) == number_at(line, 1),
    decreases a.len(),
{
    if a.len() == 0 {
        assert(a + line + rest =~= line + rest);
        law_line_is_measured(line, rest);
        assert((line + rest).take(line.len() as int) =~= line);
    } else {
        lemma_pass_over(a, line + rest, label);
        let n = line_len(a) as int;
        assert(a + line + rest =~= a + (line + rest));
        law_line_is_found(a.skip(n + 1), line, rest, label);
        assert(a.skip(n + 1) + line + rest =~= a.skip(n + 1) + (line + rest));
    }
}

/// Where no line begins with the label, none is found, and the number is zero.
pub proof fn law_missing_line_is_zero(a: Seq<char>, last: Seq<char>, label: Seq<char>)
    requires
        lines_without(a, label),
        on_one_line(last),
        !label.is_prefix_of(last),
    ensures
        find_line(a + last, label) is None,
        labelled(a + last, label) == 0,
    decreases a.len(),
{
    if a.len() == 0 {
        assert(a + last =~= last);
        assert(last + Seq::<char>::empty() =~= last);
        law_line_is_measured(last, Seq::empty());
        assert(last.take(last.len() as int) =~= last);
    } else {
        lemma_pass_over(a, last, label);
        law_missing_line_is_zero(a.skip(line_len(a) as int + 1), last, label);
    }
}

/// The word behind a label is read, whatever lines come before the labelled one, however
/// many and long they are, and whatever follows the word: with the value it stands for, or
/// zero if it stands for none.
pub proof fn law_label_is_read(
    a: Seq<char>,
    label: Seq<char>,
    blanks: Seq<char>,
    word: Seq<char>,
    unit: Seq<char>,
    rest: Seq<char>,
)
    requires
        lines_without(a, label),
        a_word(label),
        blank(blanks) && blanks.len() > 0 && on_one_line(blanks),
        a_word(word),
        ends_a_word(unit) && on_one_line(unit),
        ends_a_line(rest),
    ensures
        labelled(a + label + blanks + word + unit + rest, label) == (match parsed(word) {
            Some(n) => n,
            None => 0,
        }),
{
    let line = label + blanks + word + unit;
    assert(is_white('\n'));
    assert forall|i: int| 0 <= i < line.len() implies #[trigger] line[i] != '\n' by {
        let l = label.len() as int;
        let m = l + blanks.len();
        let n = m + word.len();
        if i < l {
            assert(line[i] == label[i]);
        } else if i < m {
            assert(line[i] == blanks[i - l]);
        } else if i < n {
            assert(line[i] == word[i - m]);
        } else {
            assert(line[i] == unit[i - n]);
        }
    }
    assert(line.take(label.len() as int) =~= label);
    law_line_is_found(a, line, rest, label);
    assert(a + label + blanks + word + unit + rest =~= a + line + rest);
    let none = Seq::<char>::empty();
    let more = blanks + word + unit;
    assert(more[0] == blanks[0]);
    assert(line =~= none + label + more);
    law_words_in_order(none, label, more, 0);
    law_words_in_order(blanks, word, unit, 0);
}

/// A number in decimal behind a label is read back, with a unit or without, whatever lines
/// come before it and whatever text follows.
pub proof fn law_labelled_number_is_read(
    a: Seq<char>,
    label: Seq<char>,
    blanks: Seq<char>,
    n: u64,
    unit: Seq<char>,
    rest: Seq<char>,
)
    requires
        lines_without(a, label),
        a_word(label),
        blank(blanks) && blanks.len() > 0 && on_one_line(blanks),
        ends_a_word(unit) && on_one_line(unit),
        ends_a_line(rest),
    ensures
        labelled(a + label + blanks + crate::text::decimal(n as nat) + unit + rest, label) == n,
{
    law_decimal_reads_back(n);
    lemma_decimal_is_a_word(n as nat);
    law_label_is_read(a, label, blanks, crate::text::decimal(n as nat), unit, rest);
}

proof fn lemma_decimal_is_a_word(n: nat)
    ensures
        a_word(crate::text::decimal(n)),
{
    lemma_decimal_is_digits(n);
    let s = crate::text::decimal(n);
    assert forall|i: int| 0 <= i < s.len() implies !is_white(#[trigger] s[i]) by {
        assert(is_digit(s[i]));
    }
}

/// The fields of `/proc/self/stat` are counted from the last closing parenthesis: what
/// comes before it may hold others, what comes after it does not. If there is none, all of
/// the text is left.
pub proof fn law_last_parenthesis_counts(head: Seq<char>, tail: Seq<char>)
    requires
        forall|i: int| 0 <= i < tail.len() ==> #[trigger] tail[i] != ')',
    ensures
        after_paren(head + seq![')'] + tail) == tail,
        after_paren(tail) == tail,
    decreases tail.len(),
{
    let s = head + seq![')'] + tail;
    if tail.len() == 0 {
        assert(s.last() == ')');
        assert(s.skip(s.len() as int) =~= tail);
    } else {
        let shorter = tail.drop_last();
        assert(tail.last() == tail[tail.len() - 1]);
        assert forall|i: int| 0 <= i < shorter.len() implies #[trigger] shorter[i] != ')' by {
            assert(shorter[i] == tail[i]);
        }
        law_last_parenthesis_counts(head, shorter);
        let s0 = head + seq![')'] + shorter;
        assert(s.drop_last() =~= s0);
        assert(s.last() == tail.last());
        assert(through_paren(s) == through_paren(s0));
        lemma_paren_inside(s0);
        lemma_paren_inside(shorter);
        assert(s0.skip(through_paren(s0) as int).len() == shorter.len());
        assert(s.skip(through_paren(s) as int) =~= tail);
        assert(shorter.skip(through_paren(shorter) as int).len() == shorter.len());
        assert(tail.skip(through_paren(tail) as int) =~= tail);
    }
}

proof fn lemma_paren_inside(s: Seq<char>)
    ensures
        through_paren(s) <= s.len(),
    decreases s.len(),
{
    if s.len() > 0 && s.last() != ')' {
        lemma_paren_inside(s.drop_last());
    }
}

/// The eighth field behind the name of the command is read, whatever the name is and
/// whatever the fields are.
pub proof fn law_field_behind_the_name_is_read(
    head: Seq<char>,
    blanks: Seq<Seq<char>>,
    fields: Seq<Seq<char>>,
    rest: Seq<char>,
    n: u64,
)
    requires
        blanks.len() == fields.len() >= 8,
        forall|i: int| 0 <= i < fields.len() ==> a_word(#[trigger] fields[i]),
        forall|i: int|
            0 <= i < blanks.len() ==> blank(#[trigger] blanks[i]) && blanks[i].len() > 0,
        ends_a_word(rest),
        forall|i: int|
            0 <= i < (spaced(blanks, fields) + rest).len() ==> #[trigger] (spaced(blanks, fields)
                + rest)[i] != ')',
        fields[7] == crate::text::decimal(n as nat),
    ensures
        number_at(after_paren(head + seq![')'] + (spaced(blanks, fields) + rest)), 7) == n,
{
    law_last_parenthesis_counts(head, spaced(blanks, fields) + rest);
    law_words_are_numbered(blanks, fields, rest, 7);
    law_decimal_reads_back(n);
}

/// Where a field is missing, or stands for no number, its number is zero.
pub proof fn law_missing_field_is_zero(s: Seq<char>, k: nat)
    ensures
        nth_word(s, k) is None ==> number_at(s, k) == 0,
        nth_word(s, k) matches Some(w) ==> number_at(s, k) == (match parsed(w) {
            Some(n) => n,
            None => 0,
        }),
{
}

proof fn lemma_leading_zero(w: Seq<char>)
    ensures
        number(seq!['0'] + w) == number(w),
    decreases w.len(),
{
    let s = seq!['0'] + w;
    if w.len() == 0 {
        assert(s.drop_last() =~= Seq::<char>::empty());
        assert(number(s.drop_last()) == 0);
    } else {
        assert(s.drop_last() =~= seq!['0'] + w.drop_last());
        assert(s.last() == w.last());
        lemma_leading_zero(w.drop_last());
    }
}

/// Which words stand for numbers: decimals do, up to the largest `u64` and no further; a
/// plus sign or zeros in front of digits make no difference.
pub proof fn law_numbers_are_decimals(n: nat, w: Seq<char>)
    requires
        w.len() > 0,
        forall|i: int| 0 <= i < w.len() ==> '0' <= #[trigger] w[i] <= '9',
    ensures
        parsed(crate::text::decimal(n)) == (if n <= u64::MAX {
            Some(n as u64)
        } else {
            None
        }),
        parsed(seq!['0'] + w) == parsed(w),
        parsed(seq!['+'] + w) == parsed(w),
{
    lemma_decimal_is_digits(n);
    assert(is_digit(crate::text::decimal(n)[0]));
    assert(w[0] != '+');
    assert forall|i: int| 0 <= i < w.len() implies is_digit(#[trigger] w[i]) by {}
    lemma_leading_zero(w);
    let zero = seq!['0'] + w;
    assert forall|i: int| 0 <= i < zero.len() implies is_digit(#[trigger] zero[i]) by {
        if i > 0 {
            assert(zero[i] == w[i - 1]);
        }
    }
    assert(zero[0] == '0');
    assert((seq!['+'] + w).skip(1) =~= w);
    assert((seq!['+'] + w)[0] == '+');
}

/// Nothing else stands for a number: a word with any other character in it does not, save
/// for a plus sign in front, and neither do no digits at all.
pub proof fn law_other_words_are_no_numbers(w: Seq<char>, i: int)
    ensures
        0 <= i < w.len() && !('0' <= w[i] <= '9') && (i > 0 || w[i] != '+') ==> parsed(w) is None,
        parsed(Seq::empty()) is None,
        parsed(seq!['+']) is None,
{
    assert(seq!['+'].skip(1).len() == 0);
    if 0 <= i < w.len() && !('0' <= w[i] <= '9') && (i > 0 || w[i] != '+') {
        if w[0] == '+' {
            assert(w.skip(1)[i - 1] == w[i]);
            assert(!is_digit(w.skip(1)[i - 1]));
        } else {
            assert(!is_digit(w[i]));
        }
    }
}

} // verus!
