//! The four figures a simulation is set up with, and the text they are
//! read from.
//!
//! The text holds one `key = value` pair per line. White space counts for
//! nothing, upper and lower case are the same, and a line that starts with
//! `#` is a comment. A key that is missing has a default; a key that is not
//! known is passed over; of a key given twice the last one counts.

use vstd::prelude::*;

verus! {

/// What a simulation is set up with.
#[derive(Debug, PartialEq, Eq)]
pub struct Config {
    /// The size of the address space.
    pub memory_max: u32,
    /// The size below which every request stays.
    pub proc_size_max: u32,
    /// The number of requests.
    pub num_proc: u32,
    /// A thousand times the lifetime below which every request stays.
    pub max_proc_time: u32,
}

/// One of the four figures.
#[derive(Debug, PartialEq, Eq, Clone, Copy)]
pub enum Setting {
    MemoryMax,
    ProcSizeMax,
    NumProc,
    MaxProcTime,
}

/// Why a text gives no configuration.
#[derive(Debug, PartialEq, Eq, Clone, Copy)]
pub enum ConfigError {
    /// Some line that is no comment is not of the form `key = value`.
    Malformed,
    /// The value given for this figure is not a number that fits.
    Unreadable(Setting),
}

// ---------------------------------------------------------------------
// What std decides
// ---------------------------------------------------------------------

/// Whether `char::is_whitespace` holds of `c`.
pub uninterp spec fn whitespace(c: char) -> bool;

/// What `str::to_lowercase` makes of the text `s`.
pub uninterp spec fn lowercase(s: Seq<char>) -> Seq<char>;

/// `char::is_whitespace`: whether `c` has the Unicode property White_Space.
/// The contract only names the answer.
#[verifier::external_body]
fn is_whitespace(c: char) -> (b: bool)
    ensures
        b == whitespace(c),
{
    c.is_whitespace()
}

/// `str::to_lowercase`: the lowercase equivalent of a text, here taken from
/// and given back as a list of characters. The contract only names the
/// result.
#[verifier::external_body]
fn to_lowercase(line: &Vec<char>) -> (out: Vec<char>)
    ensures
        out@ == lowercase(line@),
{
    line.iter().collect::<String>().to_lowercase().chars().collect()
}

// ---------------------------------------------------------------------
// The grammar
// ---------------------------------------------------------------------

/// The pieces of `text` between occurrences of `sep`. A text without `sep`
/// is one piece; a text that ends in `sep` ends in an empty piece.
pub open spec fn split_on(text: Seq<char>, sep: char) -> Seq<Seq<char>>
    decreases text.len(),
{
    if text.len() == 0 {
        seq![Seq::empty()]
    } else {
        let before = split_on(text.drop_last(), sep);
        if text.last() == sep {
            before.push(Seq::empty())
        } else {
            before.update(before.len() - 1, before.last().push(text.last()))
        }
    }
}

/// The lines of `text`: its pieces between line feeds. A line feed at the
/// very end starts no further line.
pub open spec fn lines_of(text: Seq<char>) -> Seq<Seq<char>> {
    let pieces = split_on(text, '\n');
    if pieces.last().len() == 0 {
        pieces.drop_last()
    } else {
        pieces
    }
}

/// The line without its white space.
pub open spec fn squeezed(line: Seq<char>) -> Seq<char>
    decreases line.len(),
{
    if line.len() == 0 {
        Seq::empty()
    } else if whitespace(line.last()) {
        squeezed(line.drop_last())
    } else {
        squeezed(line.drop_last()).push(line.last())
    }
}

/// A line is a comment if the first thing on it is `#`.
pub open spec fn is_comment(line: Seq<char>) -> bool {
    squeezed(line).len() > 0 && squeezed(line)[0] == '#'
}

/// The key and the value that a line gives: what stands, in lower case and
/// without white space, on either side of its one `=`.
pub open spec fn entry_of(line: Seq<char>) -> Option<(Seq<char>, Seq<char>)> {
    let fields = split_on(lowercase(squeezed(line)), '=');
    if fields.len() == 2 {
        Some((fields[0], fields[1]))
    } else {
        None
    }
}

/// The entries of all lines that are no comments, or nothing if one of
/// those lines gives no entry.
pub open spec fn entries_of(lines: Seq<Seq<char>>) -> Option<Seq<(Seq<char>, Seq<char>)>>
    decreases lines.len(),
{
    if lines.len() == 0 {
        Some(Seq::empty())
    } else {
        match entries_of(lines.drop_last()) {
            None => None,
            Some(entries) => if is_comment(lines.last()) {
                Some(entries)
            } else {
                match entry_of(lines.last()) {
                    Some(entry) => Some(entries.push(entry)),
                    None => None,
                }
            },
        }
    }
}

/// The value of the last entry with the key `key`.
pub open spec fn lookup(entries: Seq<(Seq<char>, Seq<char>)>, key: Seq<char>) -> Option<Seq<char>>
    decreases entries.len(),
{
    if entries.len() == 0 {
        None
    } else if entries.last().0 == key {
        Some(entries.last().1)
    } else {
        lookup(entries.drop_last(), key)
    }
}

/// `c` is one of the digits `0` to `9`.
pub open spec fn is_digit(c: char) -> bool {
    '0' as u32 <= c as u32 <= '9' as u32
}

/// The number that a row of digits stands for.
pub open spec fn digits_value(digits: Seq<char>) -> nat
    decreases digits.len(),
{
    if digits.len() == 0 {
        0
    } else {
        (digits_value(digits.drop_last()) * 10 + (digits.last() as u32 - '0' as u32)) as nat
    }
}

/// Every character of the text is a digit.
pub open spec fn all_digits(text: Seq<char>) -> bool {
    forall|i: int| 0 <= i < text.len() ==> is_digit(#[trigger] text[i])
}

/// The text without the `+` that it may start with.
pub open spec fn unsigned(text: Seq<char>) -> Seq<char> {
    if text.len() > 0 && text[0] == '+' {
        text.drop_first()
    } else {
        text
    }
}

/// The number that a text stands for: digits, with or without a `+` before
/// them, that make a number no larger than `u32::MAX`.
pub open spec fn number(text: Seq<char>) -> Option<u32> {
    let digits = unsigned(text);
    if digits.len() > 0 && all_digits(digits) && digits_value(digits) <= u32::MAX {
        Some(digits_value(digits) as u32)
    } else {
        None
    }
}

/// The key that a figure goes by in the text.
pub open spec fn key_of(setting: Setting) -> Seq<char> {
    match setting {
        Setting::MemoryMax => "memory_max"@,
        Setting::ProcSizeMax => "proc_size_max"@,
        Setting::NumProc => "num_proc"@,
        Setting::MaxProcTime => "max_proc_time"@,
    }
}

/// The value that a figure has where the text does not give it.
pub open spec fn default_of(setting: Setting) -> u32 {
    match setting {
        Setting::MemoryMax => 1024,
        Setting::ProcSizeMax => 1024,
        Setting::NumProc => 10,
        Setting::MaxProcTime => 10_000,
    }
}

/// The value of a figure under the given entries: the number given for its
/// key, or its default. Nothing if what is given is no number.
pub open spec fn figure(entries: Seq<(Seq<char>, Seq<char>)>, setting: Setting) -> Option<u32> {
    match lookup(entries, key_of(setting)) {
        Some(value) => number(value),
        None => Some(default_of(setting)),
    }
}

/// What reading `text` as a configuration comes to.
pub open spec fn config_of(text: Seq<char>) -> Result<Config, ConfigError> {
    match entries_of(lines_of(text)) {
        None => Err(ConfigError::Malformed),
        Some(entries) => if figure(entries, Setting::MemoryMax) is None {
            Err(ConfigError::Unreadable(Setting::MemoryMax))
        } else if figure(entries, Setting::ProcSizeMax) is None {
            Err(ConfigError::Unreadable(Setting::ProcSizeMax))
        } else if figure(entries, Setting::NumProc) is None {
            Err(ConfigError::Unreadable(Setting::NumProc))
        } else if figure(entries, Setting::MaxProcTime) is None {
            Err(ConfigError::Unreadable(Setting::MaxProcTime))
        } else {
            Ok(
                Config {
                    memory_max: figure(entries, Setting::MemoryMax)->0,
                    proc_size_max: figure(entries, Setting::ProcSizeMax)->0,
                    num_proc: figure(entries, Setting::NumProc)->0,
                    max_proc_time: figure(entries, Setting::MaxProcTime)->0,
                },
            )
        },
    }
}

/// Every value that `text` gives for one of the four figures is a number.
pub open spec fn readable(text: Seq<char>) -> bool {
    !(config_of(text) matches Err(ConfigError::Unreadable(_)))
}

// ---------------------------------------------------------------------
// Reading
// ---------------------------------------------------------------------

/// The texts that a list of character lists holds.
pub open spec fn texts(v: Seq<Vec<char>>) -> Seq<Seq<char>> {
    Seq::new(v.len(), |i: int| v[i]@)
}

/// The entries that a list of pairs of character lists holds.
pub open spec fn pairs(v: Seq<(Vec<char>, Vec<char>)>) -> Seq<(Seq<char>, Seq<char>)> {
    Seq::new(v.len(), |i: int| (v[i].0@, v[i].1@))
}

/// The characters of a text, in order.
pub fn chars_of(text: &str) -> (out: Vec<char>)
    ensures
        out@ == text@,
{
    let mut out: Vec<char> = Vec::new();
    for c in it: text.chars()
        invariant
            it.seq() == text@,
            out@ == text@.take(it.index() as int),
    {
        out.push(c);
    }
    out
}

/// Cuts `text` at every `sep`.
pub fn split(text: &Vec<char>, sep: char) -> (out: Vec<Vec<char>>)
    ensures
        texts(out@) == split_on(text@, sep),
        out.len() >= 1,
{
    let mut done: Vec<Vec<char>> = Vec::new();
    let mut current: Vec<char> = Vec::new();
    let mut i: usize = 0;
    assert(text@.take(0) == Seq::<char>::empty());
    while i < text.len()
        invariant
            i <= text.len(),
            texts(done@).push(current@) == split_on(text@.take(i as int), sep),
        decreases text.len() - i,
    {
        let ghost before = texts(done@).push(current@);
        let c = text[i];
        proof {
            assert(text@.take(i as int + 1).drop_last() == text@.take(i as int));
            assert(text@.take(i as int + 1).last() == c);
        }
        if c == sep {
            done.push(current);
            current = Vec::new();
            assert(texts(done@).push(current@) == before.push(Seq::empty()));
        } else {
            current.push(c);
            assert(texts(done@).push(current@) == before.update(
                before.len() - 1,
                before.last().push(c),
            ));
        }
        i += 1;
    }
    assert(text@.take(text.len() as int) == text@);
    let ghost before = texts(done@).push(current@);
    done.push(current);
    assert(texts(done@) == before);
    done
}

/// Cuts `text` into its lines.
pub fn lines(text: &Vec<char>) -> (out: Vec<Vec<char>>)
    ensures
        texts(out@) == lines_of(text@),
{
    let mut pieces = split(text, '\n');
    let ghost all = texts(pieces@);
    if pieces[pieces.len() - 1].len() == 0 {
        pieces.pop();
        assert(texts(pieces@) == all.drop_last());
    }
    pieces
}

/// Takes the white space out of a line.
pub fn squeeze(line: &Vec<char>) -> (out: Vec<char>)
    ensures
        out@ == squeezed(line@),
{
    let mut out: Vec<char> = Vec::new();
    let mut i: usize = 0;
    assert(line@.take(0) == Seq::<char>::empty());
    while i < line.len()
        invariant
            i <= line.len(),
            out@ == squeezed(line@.take(i as int)),
        decreases line.len() - i,
    {
        proof {
            assert(line@.take(i as int + 1).drop_last() == line@.take(i as int));
        }
        let c = line[i];
        if !is_whitespace(c) {
            out.push(c);
        }
        i += 1;
    }
    assert(line@.take(line.len() as int) == line@);
    out
}

/// Reads every line that is no comment as a `key = value` entry. Gives
/// nothing if one of them is of another form.
pub fn read_entries(text: &Vec<char>) -> (out: Option<Vec<(Vec<char>, Vec<char>)>>)
    ensures
        out matches Some(entries) ==> entries_of(lines_of(text@)) == Some(pairs(entries@)),
        out is None ==> entries_of(lines_of(text@)) is None,
{
    let all = lines(text);
    let mut entries: Vec<(Vec<char>, Vec<char>)> = Vec::new();
    let mut i: usize = 0;
    assert(texts(all@).take(0) == Seq::<Seq<char>>::empty());
    while i < all.len()
        invariant
            i <= all.len(),
            texts(all@) == lines_of(text@),
            entries_of(texts(all@).take(i as int)) == Some(pairs(entries@)),
        decreases all.len() - i,
    {
        let ghost now = texts(all@).take(i as int + 1);
        let ghost had = pairs(entries@);
        proof {
            assert(now.drop_last() == texts(all@).take(i as int));
            assert(now.last() == all@[i as int]@);
            lemma_malformed_stays(texts(all@), i as int + 1);
        }
        let bare = squeeze(&all[i]);
        if !(bare.len() > 0 && bare[0] == '#') {
            let lower = to_lowercase(&bare);
            let mut fields = split(&lower, '=');
            if fields.len() != 2 {
                proof {
                    assert(texts(fields@).len() != 2);
                    assert(entry_of(now.last()) is None);
                    assert(!is_comment(now.last()));
                    assert(entries_of(now) is None);
                }
                return None;
            }
            let ghost both = texts(fields@);
            let value = fields.pop().unwrap();
            let key = fields.pop().unwrap();
            assert(key@ == both[0] && value@ == both[1]);
            entries.push((key, value));
            assert(pairs(entries@) == had.push((both[0], both[1])));
        }
        i += 1;
    }
    assert(texts(all@).take(all.len() as int) == texts(all@));
    Some(entries)
}

/// Once the first `k` lines give no entries, the whole text gives none.
proof fn lemma_malformed_stays(lines: Seq<Seq<char>>, k: int)
    requires
        0 <= k <= lines.len(),
    ensures
        entries_of(lines.take(k)) is None ==> entries_of(lines) is None,
    decreases lines.len() - k,
{
    if k < lines.len() {
        lemma_malformed_stays(lines, k + 1);
        assert(lines.take(k + 1).drop_last() == lines.take(k));
    } else {
        assert(lines.take(k) == lines);
    }
}

/// Whether a list of characters spells out `text`.
pub fn spells(word: &Vec<char>, text: &str) -> (same: bool)
    ensures
        same == (word@ == text@),
{
    let other = chars_of(text);
    if word.len() != other.len() {
        return false;
    }
    let mut i: usize = 0;
    while i < word.len()
        invariant
            i <= word.len(),
            word.len() == other.len(),
            other@ == text@,
            forall|k: int| 0 <= k < i ==> word@[k] == other@[k],
        decreases word.len() - i,
    {
        if word[i] != other[i] {
            return false;
        }
        i += 1;
    }
    assert(word@ == other@);
    true
}

/// Finds the last entry with the key `key`.
pub fn find(entries: &Vec<(Vec<char>, Vec<char>)>, key: &str) -> (at: Option<usize>)
    ensures
        at matches Some(i) ==> i < entries.len() && lookup(pairs(entries@), key@) == Some(
            entries@[i as int].1@,
        ),
        at is None ==> lookup(pairs(entries@), key@) is None,
{
    let mut i: usize = entries.len();
    assert(pairs(entries@).take(entries.len() as int) == pairs(entries@));
    while i > 0
        invariant
            i <= entries.len(),
            lookup(pairs(entries@), key@) == lookup(pairs(entries@).take(i as int), key@),
        decreases i,
    {
        proof {
            assert(pairs(entries@).take(i as int).drop_last() == pairs(entries@).take(i as int - 1));
            assert(pairs(entries@).take(i as int).last() == (
                entries@[i as int - 1].0@,
                entries@[i as int - 1].1@,
            ));
        }
        if spells(&entries[i - 1].0, key) {
            return Some(i - 1);
        }
        i -= 1;
    }
    None
}

/// Reads a number: digits, with or without a `+` before them. Gives nothing
/// for anything else, and for a number above `u32::MAX`.
pub fn parse_number(text: &Vec<char>) -> (out: Option<u32>)
    ensures
        out == number(text@),
{
    let start: usize = if text.len() > 0 && text[0] == '+' {
        1
    } else {
        0
    };
    let ghost digits = text@.subrange(start as int, text.len() as int);
    assert(digits == unsigned(text@));
    if start == text.len() {
        return None;
    }
    let mut value: u64 = 0;
    let mut i: usize = start;
    assert(digits.take(0) == Seq::<char>::empty());
    while i < text.len()
        invariant
            start <= i <= text.len(),
            digits == text@.subrange(start as int, text.len() as int),
            digits == unsigned(text@),
            value == digits_value(digits.take(i - start)),
            value <= u32::MAX,
            all_digits(digits.take(i - start)),
        decreases text.len() - i,
    {
        let c = text[i];
        proof {
            assert(digits.take(i - start + 1).drop_last() == digits.take(i - start));
            assert(digits.take(i - start + 1).last() == c);
            assert(digits[i - start] == c);
            if all_digits(digits) {
                lemma_digits_value_grows(digits, i - start + 1);
            }
        }
        let code = c as u32;
        if code < '0' as u32 || code > '9' as u32 {
            assert(!is_digit(digits[i - start]));
            return None;
        }
        value = value * 10 + (code - '0' as u32) as u64;
        if value > u32::MAX as u64 {
            return None;
        }
        i += 1;
    }
    assert(digits.take(digits.len() as int) == digits);
    Some(value as u32)
}

/// More digits never stand for a smaller number.
proof fn lemma_digits_value_grows(digits: Seq<char>, k: int)
    requires
        0 <= k <= digits.len(),
        all_digits(digits),
    ensures
        digits_value(digits.take(k)) <= digits_value(digits),
    decreases digits.len() - k,
{
    if k < digits.len() {
        lemma_digits_value_grows(digits, k + 1);
        assert(digits.take(k + 1).drop_last() == digits.take(k));
    } else {
        assert(digits.take(k) == digits);
    }
}

/// Reads one figure from the entries: the number given for its key, or its
/// default where the key is missing. Gives nothing if what is given is no
/// number.
pub fn read_figure(entries: &Vec<(Vec<char>, Vec<char>)>, setting: Setting) -> (out: Option<u32>)
    ensures
        out == figure(pairs(entries@), setting),
{
    let (key, default): (&str, u32) = match setting {
        Setting::MemoryMax => ("memory_max", 1024),
        Setting::ProcSizeMax => ("proc_size_max", 1024),
        Setting::NumProc => ("num_proc", 10),
        Setting::MaxProcTime => ("max_proc_time", 10_000),
    };
    match find(entries, key) {
        Some(i) => parse_number(&entries[i].1),
        None => Some(default),
    }
}

/// Finds the first of the four figures, in the order memory size, process
/// size, process count, process lifetime, whose value in `s` is no number.
pub fn first_unreadable(s: &str) -> (out: Option<Setting>)
    ensures
        out matches Some(setting) ==> config_of(s@) == Err::<Config, ConfigError>(
            ConfigError::Unreadable(setting),
        ),
        out is None ==> readable(s@),
{
    match read_entries(&chars_of(s)) {
        None => None,
        Some(entries) => {
            if read_figure(&entries, Setting::MemoryMax).is_none() {
                Some(Setting::MemoryMax)
            } else if read_figure(&entries, Setting::ProcSizeMax).is_none() {
                Some(Setting::ProcSizeMax)
            } else if read_figure(&entries, Setting::NumProc).is_none() {
                Some(Setting::NumProc)
            } else if read_figure(&entries, Setting::MaxProcTime).is_none() {
                Some(Setting::MaxProcTime)
            } else {
                None
            }
        },
    }
}

/// Reads a configuration from `s`. Gives nothing if some line that is no
/// comment is not of the form `key = value`. The values given for the four
/// figures must be numbers.
pub fn parse_config(s: &str) -> (out: Option<Config>)
    requires
        readable(s@),
    ensures
        out matches Some(config) ==> config_of(s@) == Ok::<Config, ConfigError>(config),
        out is None ==> config_of(s@) == Err::<Config, ConfigError>(ConfigError::Malformed),
{
    match read_entries(&chars_of(s)) {
        None => None,
        Some(entries) => {
            let memory_max = read_figure(&entries, Setting::MemoryMax);
            let proc_size_max = read_figure(&entries, Setting::ProcSizeMax);
            let num_proc = read_figure(&entries, Setting::NumProc);
            let max_proc_time = read_figure(&entries, Setting::MaxProcTime);
            Some(
                Config {
                    memory_max: memory_max.unwrap(),
                    proc_size_max: proc_size_max.unwrap(),
                    num_proc: num_proc.unwrap(),
                    max_proc_time: max_proc_time.unwrap(),
                },
            )
        },
    }
}

/// Reads a configuration from `s`, or says why `s` gives none.
pub fn try_parse_config(s: &str) -> (out: Result<Config, ConfigError>)
    ensures
        out == config_of(s@),
{
    match first_unreadable(s) {
        Some(setting) => Err(ConfigError::Unreadable(setting)),
        None => match parse_config(s) {
            Some(config) => Ok(config),
            None => Err(ConfigError::Malformed),
        },
    }
}

} // verus!
