//! Timer plans: the line grammar and the reading of a whole plan.
//!
//! A plan line is `<path ending in .wav>[: <seconds>]`, a comment whose first
//! non-space character is `#`, or a blank line.
use vstd::prelude::*;
use crate::errors::TimerError;
use crate::search::{first_index_of, lemma_first_index_prefix};

verus! {

/// Delay, in seconds, of an entry that gives none.
pub const DEFAULT_DELAY: u64 = 1;

/// One step of a plan as read from text: a sound path and a delay in
/// seconds.
#[derive(Debug)]
pub struct ImportPair {
    sound_path: String,
    time_delay: u64,
}

impl View for ImportPair {
    type V = (Seq<char>, u64);

    closed spec fn view(&self) -> (Seq<char>, u64) {
        (self.sound_path@, self.time_delay)
    }
}

/// What one plan line holds.
#[derive(Debug)]
pub enum ParsedLine {
    /// A sound and its delay.
    Entry(ImportPair),
    /// A comment beginning with `#`.
    Comment,
    /// A line with nothing but white space.
    Blank,
}

/// The meaning of a plan line, over its characters.
pub enum LineMeaning {
    Entry(Seq<char>, u64),
    Comment,
    Blank,
    Invalid,
}

/// Unicode white space, the characters that `trim` removes.
pub open spec fn white_space(c: char) -> bool {
    let u = c as u32;
    (0x9 <= u <= 0xD) || u == 0x20 || u == 0x85 || u == 0xA0 || u == 0x1680 || (0x2000 <= u
        <= 0x200A) || u == 0x2028 || u == 0x2029 || u == 0x202F || u == 0x205F || u == 0x3000
}

pub open spec fn trim_start(s: Seq<char>) -> Seq<char>
    decreases s.len(),
{
    if s.len() > 0 && white_space(s[0]) {
        trim_start(s.drop_first())
    } else {
        s
    }
}

pub open spec fn trim_end(s: Seq<char>) -> Seq<char>
    decreases s.len(),
{
    if s.len() > 0 && white_space(s.last()) {
        trim_end(s.drop_last())
    } else {
        s
    }
}

/// `s` without leading and trailing white space.
pub open spec fn trim(s: Seq<char>) -> Seq<char> {
    trim_end(trim_start(s))
}

pub open spec fn is_digit(c: char) -> bool {
    '0' as u32 <= c as u32 <= '9' as u32
}

pub open spec fn all_digits(s: Seq<char>) -> bool {
    forall|i: int| 0 <= i < s.len() ==> is_digit(#[trigger] s[i])
}

/// The number that the decimal digits `s` write.
pub open spec fn digits_value(s: Seq<char>) -> nat
    decreases s.len(),
{
    if s.len() == 0 {
        0
    } else {
        10 * digits_value(s.drop_last()) + (s.last() as u32 - '0' as u32) as nat
    }
}

/// An unsigned 64-bit integer written in decimal: an optional `+` and at
/// least one digit, with a value that fits.
pub open spec fn parse_u64(s: Seq<char>) -> Option<u64> {
    digits_u64(if s.len() > 0 && s[0] == '+' { s.drop_first() } else { s })
}

/// At least one decimal digit, with a value that fits in 64 bits.
pub open spec fn digits_u64(d: Seq<char>) -> Option<u64> {
    if d.len() > 0 && all_digits(d) && digits_value(d) <= u64::MAX {
        Some(digits_value(d) as u64)
    } else {
        None
    }
}

pub open spec fn ends_with_wav(s: Seq<char>) -> bool {
    s.len() >= 4 && s.subrange(s.len() - 4, s.len() as int) == seq!['.', 'w', 'a', 'v']
}

/// The meaning of one plan line. After trimming: empty is blank; a leading
/// `#` is a comment; otherwise the text up to the first `:` is the path,
/// which must end in `.wav`, and the trimmed text after it, if there is a
/// `:`, is the delay in seconds, else the delay is one second.
pub open spec fn line_meaning(line: Seq<char>) -> LineMeaning {
    let t = trim(line);
    if t.len() == 0 {
        LineMeaning::Blank
    } else if t[0] == '#' {
        LineMeaning::Comment
    } else {
        match first_index_of(t, ':') {
            None => if ends_with_wav(t) {
                LineMeaning::Entry(t, DEFAULT_DELAY)
            } else {
                LineMeaning::Invalid
            },
            Some(k) => if !ends_with_wav(t.take(k)) {
                LineMeaning::Invalid
            } else {
                match parse_u64(trim(t.skip(k + 1))) {
                    Some(d) => LineMeaning::Entry(t.take(k), d),
                    None => LineMeaning::Invalid,
                }
            },
        }
    }
}

/// The decimal digit for `k`, below 10.
pub open spec fn digit_char(k: nat) -> char {
    seq!['0', '1', '2', '3', '4', '5', '6', '7', '8', '9'][k as int]
}

/// `n` written in decimal, without leading zeros.
pub open spec fn decimal(n: nat) -> Seq<char>
    decreases n,
{
    if n < 10 {
        seq![digit_char(n)]
    } else {
        decimal(n / 10).push(digit_char(n % 10))
    }
}

proof fn lemma_digit_char(k: nat)
    requires
        k < 10,
    ensures
        is_digit(digit_char(k)),
        (digit_char(k) as u32 - '0' as u32) as nat == k,
{
    let ds = seq!['0', '1', '2', '3', '4', '5', '6', '7', '8', '9'];
    if k == 0 { assert(ds[0] == '0'); }
    else if k == 1 { assert(ds[1] == '1'); }
    else if k == 2 { assert(ds[2] == '2'); }
    else if k == 3 { assert(ds[3] == '3'); }
    else if k == 4 { assert(ds[4] == '4'); }
    else if k == 5 { assert(ds[5] == '5'); }
    else if k == 6 { assert(ds[6] == '6'); }
    else if k == 7 { assert(ds[7] == '7'); }
    else if k == 8 { assert(ds[8] == '8'); }
    else { assert(ds[9] == '9'); }
}

proof fn lemma_decimal(n: nat)
    ensures
        decimal(n).len() > 0,
        all_digits(decimal(n)),
        digits_value(decimal(n)) == n,
    decreases n,
{
    if n < 10 {
        lemma_digit_char(n);
        assert(decimal(n).drop_last() =~= Seq::<char>::empty());
        assert(digits_value(Seq::<char>::empty()) == 0);
        assert(decimal(n).last() == digit_char(n));
    } else {
        lemma_decimal(n / 10);
        lemma_digit_char(n % 10);
        assert(decimal(n).drop_last() =~= decimal(n / 10));
        assert(decimal(n).last() == digit_char(n % 10));
        assert(n == 10 * (n / 10) + n % 10);
        assert forall|i: int| 0 <= i < decimal(n).len() implies is_digit(#[trigger] decimal(n)[i]) by {
            if i < decimal(n).len() - 1 {
                assert(decimal(n)[i] == decimal(n / 10)[i]);
            }
        }
    }
}

proof fn lemma_colon_free(s: Seq<char>)
    requires
        forall|i: int| 0 <= i < s.len() ==> s[i] != ':',
    ensures
        first_index_of(s, ':') is None,
    decreases s.len(),
{
    if s.len() > 0 {
        assert(s.last() == s[s.len() - 1]);
        lemma_colon_free(s.drop_last());
    }
}

/// Grammar round trip: a path that ends in `.wav`, and that has no `:` and
/// neither starts with white space nor with `#`, reads back from the line
/// `"{path}: {d}"` with delay `d`, and from the line `"{path}"` with a delay
/// of one second.
pub proof fn lemma_grammar_round_trip(path: Seq<char>, d: u64)
    requires
        ends_with_wav(path),
        forall|i: int| 0 <= i < path.len() ==> path[i] != ':',
        !white_space(path[0]),
        path[0] != '#',
    ensures
        line_meaning(path + seq![':', ' '] + decimal(d as nat)) == LineMeaning::Entry(path, d),
        line_meaning(path) == LineMeaning::Entry(path, DEFAULT_DELAY),
{
    let n = path.len() as int;
    let digits = decimal(d as nat);
    lemma_decimal(d as nat);
    let line = path + seq![':', ' '] + digits;
    assert(is_digit(digits.last()));
    assert(line.last() == digits.last());
    assert(line[0] == path[0]);
    assert(trim(line) == line);
    assert(path.last() == path.subrange(n - 4, n)[3]);
    assert(trim(path) == path);
    lemma_colon_free(path);
    assert(line.take(n + 1).drop_last() =~= path);
    assert(line.take(n + 1).last() == ':');
    lemma_first_index_prefix(line, ':', n + 1);
    assert(line.take(n as int) =~= path);
    let rest = line.skip(n + 1);
    assert(rest.drop_first() =~= digits);
    assert(rest[0] == ' ');
    assert(is_digit(digits[0]));
    assert(white_space(' '));
    assert(trim_start(digits) == digits);
    assert(trim_start(rest) == digits);
    assert(trim(rest) == digits);
    assert(parse_u64(digits) == Some(d));
}

/// Whether `r` is what parsing `line` gives, by its meaning.
pub open spec fn parsed_as(line: Seq<char>, r: Result<ParsedLine, TimerError>) -> bool {
    match line_meaning(line) {
        LineMeaning::Entry(p, d) => r matches Ok(ParsedLine::Entry(pair)) && pair@ == (p, d),
        LineMeaning::Comment => r matches Ok(ParsedLine::Comment),
        LineMeaning::Blank => r matches Ok(ParsedLine::Blank),
        LineMeaning::Invalid => r matches Err(TimerError::InvalidParse { line: l }) && l@ == line,
    }
}

/// The characters of each line.
pub open spec fn lines_view(lines: Seq<String>) -> Seq<Seq<char>> {
    lines.map_values(|l: String| l@)
}

/// The path and delay of each pair.
pub open spec fn pairs_view(pairs: Seq<ImportPair>) -> Seq<(Seq<char>, u64)> {
    pairs.map_values(|p: ImportPair| p@)
}

/// The entries of a plan in line order, or the first line that breaks the
/// grammar.
pub open spec fn plan_meaning(lines: Seq<Seq<char>>) -> Result<Seq<(Seq<char>, u64)>, Seq<char>>
    decreases lines.len(),
{
    if lines.len() == 0 {
        Ok(Seq::empty())
    } else {
        match plan_meaning(lines.drop_last()) {
            Err(l) => Err(l),
            Ok(entries) => match line_meaning(lines.last()) {
                LineMeaning::Entry(p, d) => Ok(entries.push((p, d))),
                LineMeaning::Invalid => Err(lines.last()),
                _ => Ok(entries),
            },
        }
    }
}

pub open spec fn is_entry(line: Seq<char>) -> bool {
    line_meaning(line) is Entry
}

/// The path and delay of an entry line.
pub open spec fn entry_of(line: Seq<char>) -> (Seq<char>, u64) {
    match line_meaning(line) {
        LineMeaning::Entry(p, d) => (p, d),
        _ => (Seq::empty(), 0),
    }
}

/// The entry lines of a plan, in order, as paths and delays.
pub open spec fn plan_entries(lines: Seq<Seq<char>>) -> Seq<(Seq<char>, u64)> {
    lines.filter(|l: Seq<char>| is_entry(l)).map_values(|l: Seq<char>| entry_of(l))
}

/// Order preservation: a plan whose lines all keep to the grammar reads as
/// exactly its entry lines, in their order, with comments and blank lines
/// left out.
pub proof fn lemma_order_preservation(lines: Seq<Seq<char>>)
    requires
        forall|i: int| 0 <= i < lines.len() ==> !(line_meaning(#[trigger] lines[i]) is Invalid),
    ensures
        plan_meaning(lines) == Ok::<Seq<(Seq<char>, u64)>, Seq<char>>(plan_entries(lines)),
    decreases lines.len(),
{
    reveal(Seq::filter);
    if lines.len() > 0 {
        let rest = lines.drop_last();
        assert forall|i: int| 0 <= i < rest.len() implies !(line_meaning(#[trigger] rest[i]) is Invalid) by {
            assert(rest[i] == lines[i]);
        }
        lemma_order_preservation(rest);
        assert(!(line_meaning(lines[lines.len() - 1]) is Invalid));
        let f = rest.filter(|l: Seq<char>| is_entry(l));
        assert(plan_entries(rest) == f.map_values(|l: Seq<char>| entry_of(l)));
        if is_entry(lines.last()) {
            assert(lines.filter(|l: Seq<char>| is_entry(l)) == f.push(lines.last()));
            assert(plan_entries(lines) =~= plan_entries(rest).push(entry_of(lines.last())));
        } else {
            assert(lines.filter(|l: Seq<char>| is_entry(l)) == f);
            assert(plan_entries(lines) =~= plan_entries(rest));
        }
    } else {
        assert(plan_entries(lines) =~= Seq::<(Seq<char>, u64)>::empty());
    }
}

/// Reads the lines of a plan, in order, into its entries. The first line
/// that breaks the grammar stops the reading with its error.
pub fn parse_lines(lines: &Vec<String>) -> (r: Result<Vec<ImportPair>, TimerError>)
    ensures
        match plan_meaning(lines_view(lines@)) {
            Ok(entries) => r matches Ok(pairs) && pairs_view(pairs@) == entries,
            Err(bad) => r matches Err(TimerError::InvalidParse { line }) && line@ == bad,
        },
{
    let mut pairs: Vec<ImportPair> = Vec::with_capacity(5);
    let mut i: usize = 0;
    assert(lines_view(lines@).take(0) =~= Seq::<Seq<char>>::empty());
    assert(pairs_view(pairs@) =~= Seq::<(Seq<char>, u64)>::empty());
    while i < lines.len()
        invariant
            i <= lines.len(),
            plan_meaning(lines_view(lines@).take(i as int)) == Ok::<Seq<(Seq<char>, u64)>, Seq<char>>(
                pairs_view(pairs@),
            ),
        decreases lines.len() - i,
    {
        let ghost prefix = lines_view(lines@).take(i as int + 1);
        assert(prefix.drop_last() =~= lines_view(lines@).take(i as int));
        assert(prefix.last() == lines@[i as int]@);
        let parsed = parse_line(lines[i].as_str());
        match parsed {
            Ok(ParsedLine::Entry(pair)) => {
                let ghost before = pairs@;
                pairs.push(pair);
                assert(pairs_view(pairs@) =~= pairs_view(before).push(pair@));
            },
            Ok(_) => {},
            Err(e) => {
                proof {
                    lemma_plan_error_stays(lines_view(lines@), i as int + 1);
                }
                return Err(e);
            },
        }
        i = i + 1;
    }
    assert(lines_view(lines@).take(i as int) =~= lines_view(lines@));
    Ok(pairs)
}

/// An error in a prefix of a plan is the error of the whole plan.
proof fn lemma_plan_error_stays(lines: Seq<Seq<char>>, k: int)
    requires
        0 <= k <= lines.len(),
        plan_meaning(lines.take(k)) is Err,
    ensures
        plan_meaning(lines) == plan_meaning(lines.take(k)),
    decreases lines.len() - k,
{
    if k < lines.len() {
        assert(lines.take(k + 1).drop_last() =~= lines.take(k));
        lemma_plan_error_stays(lines, k + 1);
    } else {
        assert(lines.take(k) =~= lines);
    }
}

impl ImportPair {
    /// A plan step for `sound_path` with a delay of `time_delay` seconds.
    pub fn new(sound_path: &str, time_delay: u64) -> (r: Self)
        ensures
            r@ == (sound_path@, time_delay),
    {
        ImportPair { sound_path: sound_path.to_owned(), time_delay }
    }

    pub fn sound_path(&self) -> (r: &str)
        ensures
            r@ == self@.0,
    {
        self.sound_path.as_str()
    }

    pub fn time_delay(&self) -> (r: u64)
        ensures
            r == self@.1,
    {
        self.time_delay
    }
}

/// Whether `c` is Unicode white space.
fn is_white_space(c: char) -> (r: bool)
    ensures
        r == white_space(c),
{
    let u = c as u32;
    (0x9 <= u && u <= 0xD) || u == 0x20 || u == 0x85 || u == 0xA0 || u == 0x1680 || (0x2000 <= u
        && u <= 0x200A) || u == 0x2028 || u == 0x2029 || u == 0x202F || u == 0x205F || u == 0x3000
}

/// The bounds, within `s`, of the characters `from..to` of `s` trimmed.
fn trim_range(s: &str, from: usize, to: usize) -> (r: (usize, usize))
    requires
        from <= to <= s@.len(),
    ensures
        from <= r.0 <= r.1 <= to,
        s@.subrange(r.0 as int, r.1 as int) == trim(s@.subrange(from as int, to as int)),
{
    let mut i = from;
    while i < to && is_white_space(s.get_char(i))
        invariant
            from <= i <= to <= s@.len(),
            trim_start(s@.subrange(from as int, to as int)) == trim_start(
                s@.subrange(i as int, to as int),
            ),
        decreases to - i,
    {
        assert(s@.subrange(i as int, to as int).drop_first() =~= s@.subrange(i + 1, to as int));
        i = i + 1;
    }
    assert(trim_start(s@.subrange(i as int, to as int)) == s@.subrange(i as int, to as int));
    let mut j = to;
    while j > i && is_white_space(s.get_char(j - 1))
        invariant
            from <= i <= j <= to <= s@.len(),
            trim_end(s@.subrange(i as int, to as int)) == trim_end(s@.subrange(i as int, j as int)),
        decreases j,
    {
        assert(s@.subrange(i as int, j as int).drop_last() =~= s@.subrange(i as int, j - 1));
        j = j - 1;
    }
    assert(trim_end(s@.subrange(i as int, j as int)) == s@.subrange(i as int, j as int));
    (i, j)
}

/// Reads the characters `from..to` of `s` as an unsigned decimal number.
fn parse_decimal(s: &str, from: usize, to: usize) -> (r: Option<u64>)
    requires
        from <= to <= s@.len(),
    ensures
        r == parse_u64(s@.subrange(from as int, to as int)),
{
    let ghost t = s@.subrange(from as int, to as int);
    let mut i = from;
    if i < to && s.get_char(i) == '+' {
        i = i + 1;
    }
    let ghost start = i;
    proof {
        assert(t.len() > 0 ==> t[0] == s@[from as int]);
        if t.len() > 0 && t[0] == '+' {
            assert(t.drop_first() =~= s@.subrange(start as int, to as int));
        } else {
            assert(t =~= s@.subrange(start as int, to as int));
        }
    }
    if i == to {
        return None;
    }
    let mut acc: u64 = 0;
    let mut over = false;
    while i < to
        invariant
            start <= i <= to <= s@.len(),
            t == s@.subrange(from as int, to as int),
            parse_u64(t) == digits_u64(s@.subrange(start as int, to as int)),
            all_digits(s@.subrange(start as int, i as int)),
            !over ==> acc as nat == digits_value(s@.subrange(start as int, i as int)),
            over ==> digits_value(s@.subrange(start as int, i as int)) > u64::MAX,
        decreases to - i,
    {
        let c = s.get_char(i);
        let u = c as u32;
        if u < '0' as u32 || u > '9' as u32 {
            assert(!is_digit(s@.subrange(start as int, to as int)[i - start]));
            assert(!all_digits(s@.subrange(start as int, to as int)));
            return None;
        }
        let digit = (u - '0' as u32) as u64;
        let ghost prev = s@.subrange(start as int, i as int);
        let ghost next = s@.subrange(start as int, i + 1);
        assert(next.drop_last() =~= prev);
        assert(digits_value(next) == 10 * digits_value(prev) + digit);
        if !over {
            match acc.checked_mul(10) {
                Some(m) => match m.checked_add(digit) {
                    Some(v) => {
                        acc = v;
                    },
                    None => {
                        over = true;
                    },
                },
                None => {
                    over = true;
                },
            }
        }
        i = i + 1;
    }
    assert(s@.subrange(start as int, i as int) =~= s@.subrange(start as int, to as int));
    if over {
        None
    } else {
        Some(acc)
    }
}

/// Whether the characters `from..to` of `s` end with `.wav`.
fn ends_with_wav_at(s: &str, from: usize, to: usize) -> (r: bool)
    requires
        from <= to <= s@.len(),
    ensures
        r == ends_with_wav(s@.subrange(from as int, to as int)),
{
    let ghost t = s@.subrange(from as int, to as int);
    if to - from < 4 {
        return false;
    }
    let r = s.get_char(to - 4) == '.' && s.get_char(to - 3) == 'w' && s.get_char(to - 2) == 'a'
        && s.get_char(to - 1) == 'v';
    proof {
        let tail = t.subrange(t.len() - 4, t.len() as int);
        if r {
            assert(tail =~= seq!['.', 'w', 'a', 'v']);
        } else {
            if tail == seq!['.', 'w', 'a', 'v'] {
                assert(tail[0] == '.' && tail[1] == 'w' && tail[2] == 'a' && tail[3] == 'v');
            }
        }
    }
    r
}

/// Position of the first `:` among the characters `from..to` of `s`, or
/// `to` where there is none.
fn find_colon(s: &str, from: usize, to: usize) -> (k: usize)
    requires
        from <= to <= s@.len(),
    ensures
        from <= k <= to,
        k == to ==> first_index_of(s@.subrange(from as int, to as int), ':') is None,
        k < to ==> first_index_of(s@.subrange(from as int, to as int), ':') == Some(k - from),
{
    let ghost t = s@.subrange(from as int, to as int);
    let mut k = from;
    while k < to && s.get_char(k) != ':'
        invariant
            from <= k <= to <= s@.len(),
            t == s@.subrange(from as int, to as int),
            first_index_of(t.take(k - from), ':') is None,
        decreases to - k,
    {
        assert(t.take(k - from + 1).drop_last() =~= t.take(k - from));
        k = k + 1;
    }
    proof {
        if k == to {
            assert(t.take(k - from) =~= t);
        } else {
            assert(t.take(k - from + 1).drop_last() =~= t.take(k - from));
            assert(first_index_of(t.take(k - from + 1), ':') == Some(k - from));
            lemma_first_index_prefix(t, ':', k - from + 1);
        }
    }
    k
}

/// Parses one line of a timer plan.
#[verifier::rlimit(50)]
pub fn parse_line(s: &str) -> (r: Result<ParsedLine, TimerError>)
    ensures
        parsed_as(s@, r),
{
    let n = s.unicode_len();
    let (a, b) = trim_range(s, 0, n);
    let ghost t = s@.subrange(a as int, b as int);
    assert(s@.subrange(0, n as int) =~= s@);
    if a == b {
        return Ok(ParsedLine::Blank);
    }
    if s.get_char(a) == '#' {
        return Ok(ParsedLine::Comment);
    }
    let k = find_colon(s, a, b);
    if k == b {
        if !ends_with_wav_at(s, a, b) {
            return Err(TimerError::InvalidParse { line: s.to_owned() });
        }
        let path = s.substring_char(a, b);
        return Ok(ParsedLine::Entry(ImportPair { sound_path: path.to_owned(), time_delay: DEFAULT_DELAY }));
    }
    proof {
        assert(t.take(k - a) =~= s@.subrange(a as int, k as int));
        assert(t.skip(k - a + 1) =~= s@.subrange(k + 1, b as int));
    }
    if !ends_with_wav_at(s, a, k) {
        return Err(TimerError::InvalidParse { line: s.to_owned() });
    }
    let (c, d) = trim_range(s, k + 1, b);
    match parse_decimal(s, c, d) {
        Some(delay) => {
            let path = s.substring_char(a, k);
            Ok(ParsedLine::Entry(ImportPair { sound_path: path.to_owned(), time_delay: delay }))
        },
        None => Err(TimerError::InvalidParse { line: s.to_owned() }),
    }
}

} // verus!
