//! Reading the text of a `/proc/[pid]/status` file into the fields that the
//! monitor shows: name, state, pid, parent pid, thread count and resident memory.
use vstd::prelude::*;
use crate::text;
use crate::text::{char_is_whitespace, chars_of, parse_u32, push_char, string_of_range, trim_str, u32_cleaner};

verus! {

/// The kind of status line that a key names.
#[derive(Clone, Copy, Debug, PartialEq, Eq, Structural)]
pub enum AttributeType {
    Name,
    State,
    Pid,
    Ppid,
    Threads,
    RamUsage,
    CpuUsage,
    Unknown,
}

/// One entry of the key table: the kind of a line and the key that names it.
pub struct AttributeAndValue {
    pub att_type: AttributeType,
    pub att_name: String,
}

impl AttributeAndValue {
    /// Pairs a line kind with the key that names it.
    pub fn new(att_type: AttributeType, att_name: String) -> (r: AttributeAndValue)
        ensures
            r.att_type == att_type,
            r.att_name == att_name,
    {
        AttributeAndValue { att_type, att_name }
    }
}

/// The keys that the parser looks for, in the order it tries them.
pub open spec fn key_names() -> Seq<Seq<char>> {
    seq![
        seq!['N', 'a', 'm', 'e'],
        seq!['S', 't', 'a', 't', 'e'],
        seq!['P', 'i', 'd'],
        seq!['P', 'P', 'i', 'd'],
        seq!['V', 'm', 'R', 'S', 'S'],
        seq!['T', 'h', 'r', 'e', 'a', 'd', 's'],
    ]
}

/// The line kind that goes with each entry of `key_names`.
pub open spec fn key_types() -> Seq<AttributeType> {
    seq![
        AttributeType::Name,
        AttributeType::State,
        AttributeType::Pid,
        AttributeType::Ppid,
        AttributeType::RamUsage,
        AttributeType::Threads,
    ]
}

/// The kind of line whose key is `key`; `Unknown` for a key outside the table.
pub open spec fn attribute_for_key(key: Seq<char>) -> AttributeType {
    if key == key_names()[0] {
        AttributeType::Name
    } else if key == key_names()[1] {
        AttributeType::State
    } else if key == key_names()[2] {
        AttributeType::Pid
    } else if key == key_names()[3] {
        AttributeType::Ppid
    } else if key == key_names()[4] {
        AttributeType::RamUsage
    } else if key == key_names()[5] {
        AttributeType::Threads
    } else {
        AttributeType::Unknown
    }
}

/// `table` is the key table: the six keys with their kinds, in order.
pub open spec fn is_key_table(table: Seq<AttributeAndValue>) -> bool {
    &&& table.len() == 6
    &&& forall|i: int|
        0 <= i < 6 ==> (#[trigger] table[i]).att_name@ == key_names()[i] && table[i].att_type
            == key_types()[i]
}

/// `line` without a carriage return at its end.
pub open spec fn strip_cr(line: Seq<char>) -> Seq<char> {
    if line.len() > 0 && line.last() == '\r' {
        line.drop_last()
    } else {
        line
    }
}

/// The lines of `s` that a newline ends (each without its newline and
/// carriage return), and the text after the last newline.
pub open spec fn scan_lines(s: Seq<char>) -> (Seq<Seq<char>>, Seq<char>)
    decreases s.len(),
{
    if s.len() == 0 {
        (Seq::empty(), Seq::empty())
    } else {
        let prev = scan_lines(s.drop_last());
        if s.last() == '\n' {
            (prev.0.push(strip_cr(prev.1)), Seq::empty())
        } else {
            (prev.0, prev.1.push(s.last()))
        }
    }
}

/// The lines of `s` as `BufRead::lines` yields them: split at each newline, a
/// carriage return before the newline dropped, and text after the last
/// newline a line of its own when there is any.
pub open spec fn lines_of(s: Seq<char>) -> Seq<Seq<char>> {
    let scanned = scan_lines(s);
    if scanned.1.len() == 0 {
        scanned.0
    } else {
        scanned.0.push(scanned.1)
    }
}

/// The index of the first `:` of `line`, or its length when it has none.
pub open spec fn colon_index(line: Seq<char>) -> int
    decreases line.len(),
{
    if line.len() == 0 {
        0
    } else if line[0] == ':' {
        0
    } else {
        colon_index(line.drop_first()) + 1
    }
}

/// `s` without its tab characters.
pub open spec fn without_tabs(s: Seq<char>) -> Seq<char>
    decreases s.len(),
{
    if s.len() == 0 {
        Seq::empty()
    } else if s.last() != '\t' {
        without_tabs(s.drop_last()).push(s.last())
    } else {
        without_tabs(s.drop_last())
    }
}

/// A character that the value of a line keeps: neither a space, a tab nor a colon.
pub open spec fn is_value_char(c: char) -> bool {
    c != ' ' && c != '\t' && c != ':'
}

/// The characters of `s` that are value characters, in order.
pub open spec fn value_chars(s: Seq<char>) -> Seq<char>
    decreases s.len(),
{
    if s.len() == 0 {
        Seq::empty()
    } else if is_value_char(s.last()) {
        value_chars(s.drop_last()).push(s.last())
    } else {
        value_chars(s.drop_last())
    }
}

/// The key of a line: what stands before its first colon, without tabs.
pub open spec fn line_key(line: Seq<char>) -> Seq<char> {
    without_tabs(line.take(colon_index(line)))
}

/// The value of a line: what stands after its first colon, without spaces,
/// tabs and further colons; empty when the line has no colon.
pub open spec fn line_value(line: Seq<char>) -> Seq<char> {
    if colon_index(line) < line.len() {
        value_chars(line.skip(colon_index(line) + 1))
    } else {
        Seq::empty()
    }
}

/// The text of a line after its first colon, as written; empty when the
/// line has no colon.
pub open spec fn after_colon(line: Seq<char>) -> Seq<char> {
    if colon_index(line) < line.len() {
        line.skip(colon_index(line) + 1)
    } else {
        Seq::empty()
    }
}

/// The index of the first whitespace character of `s`, or its length when it
/// has none.
pub open spec fn whitespace_index(s: Seq<char>) -> int
    decreases s.len(),
{
    if s.len() == 0 {
        0
    } else if text::is_whitespace(s[0]) {
        0
    } else {
        whitespace_index(s.drop_first()) + 1
    }
}

/// The first whitespace-separated token of `s`: the text before its first
/// whitespace character.
pub open spec fn first_token(s: Seq<char>) -> Seq<char> {
    s.take(whitespace_index(s))
}

/// The process name that a `Name` line gives: the text after the colon, as
/// written, without leading and trailing whitespace.
pub open spec fn name_of_line(line: Seq<char>) -> Seq<char> {
    text::trim(after_colon(line))
}

/// The state code that a `State` line gives: the first token after the
/// colon, so `S (sleeping)` gives `S`.
pub open spec fn state_of_line(line: Seq<char>) -> Seq<char> {
    first_token(text::trim(after_colon(line)))
}

/// What the lines read so far say of each field; `None` where no line gave it
/// or the last line that named it held no readable value.
pub struct StatusFields {
    pub name: Option<Seq<char>>,
    pub state: Option<Seq<char>>,
    pub pid: Option<u32>,
    pub ppid: Option<u32>,
    pub threads: Option<u32>,
    pub ram: Option<Seq<char>>,
}

/// No field given yet.
pub open spec fn no_fields() -> StatusFields {
    StatusFields { name: None, state: None, pid: None, ppid: None, threads: None, ram: None }
}

/// The digits of a memory value, or `None` when it holds no digit.
pub open spec fn ram_digits(value: Seq<char>) -> Option<Seq<char>> {
    if text::digits_of(value).len() > 0 {
        Some(text::digits_of(value))
    } else {
        None
    }
}

/// The fields after one more line: the field that the line's key names is
/// replaced by what its value gives; a line with another key changes nothing.
pub open spec fn apply_line(f: StatusFields, line: Seq<char>) -> StatusFields {
    let value = line_value(line);
    match attribute_for_key(line_key(line)) {
        AttributeType::Name => StatusFields { name: Some(name_of_line(line)), ..f },
        AttributeType::State => StatusFields { state: Some(state_of_line(line)), ..f },
        AttributeType::Pid => StatusFields { pid: text::spec_parse_u32(text::trim(value)), ..f },
        AttributeType::Ppid => StatusFields { ppid: text::spec_parse_u32(text::digits_of(value)), ..f },
        AttributeType::Threads => StatusFields { threads: text::spec_parse_u32(text::digits_of(value)), ..f },
        AttributeType::RamUsage => StatusFields { ram: ram_digits(value), ..f },
        _ => f,
    }
}

/// The fields that `lines` give, read in order.
pub open spec fn fields_of_lines(lines: Seq<Seq<char>>) -> StatusFields
    decreases lines.len(),
{
    if lines.len() == 0 {
        no_fields()
    } else {
        apply_line(fields_of_lines(lines.drop_last()), lines.last())
    }
}

/// What the monitor keeps of one process, as plain values.
pub struct ProcessStatus {
    pub pid: u32,
    pub ppid: u32,
    pub process_name: String,
    pub state: String,
    pub threads_used: u32,
    /// The decimal digits of the resident memory in kB; `"0"` when the file
    /// gives none.
    pub ram_usage_kb: String,
}

/// The mathematical value of a `ProcessStatus`.
pub struct ProcessStatusView {
    pub pid: u32,
    pub ppid: u32,
    pub process_name: Seq<char>,
    pub state: Seq<char>,
    pub threads_used: u32,
    pub ram_usage_kb: Seq<char>,
}

impl View for ProcessStatus {
    type V = ProcessStatusView;

    open spec fn view(&self) -> ProcessStatusView {
        ProcessStatusView {
            pid: self.pid,
            ppid: self.ppid,
            process_name: self.process_name@,
            state: self.state@,
            threads_used: self.threads_used,
            ram_usage_kb: self.ram_usage_kb@,
        }
    }
}

/// Why a status text gives no process.
#[derive(Clone, Copy, Debug, PartialEq, Eq, Structural)]
pub enum StatusError {
    /// One of name, state, pid, parent pid and thread count is missing or unreadable.
    MissingRequiredField,
}

/// The process that the fields describe: `None` unless name, state, pid,
/// parent pid and thread count are all given; the memory is `"0"` when absent.
pub open spec fn status_of_fields(f: StatusFields) -> Option<ProcessStatusView> {
    if f.name is Some && f.state is Some && f.pid is Some && f.ppid is Some
        && f.threads is Some {
        Some(
            ProcessStatusView {
                pid: f.pid->0,
                ppid: f.ppid->0,
                process_name: f.name->0,
                state: f.state->0,
                threads_used: f.threads->0,
                ram_usage_kb: match f.ram {
                    Some(d) => d,
                    None => seq!['0'],
                },
            },
        )
    } else {
        None
    }
}

/// The process that a status text describes.
pub open spec fn spec_process_data(content: Seq<char>) -> Option<ProcessStatusView> {
    status_of_fields(fields_of_lines(lines_of(content)))
}

/// The fields gathered so far while reading a status text.
struct FieldAccumulator {
    process_name: Option<String>,
    process_state: Option<String>,
    pid: Option<u32>,
    ppid: Option<u32>,
    threads_used: Option<u32>,
    ram_usage: Option<String>,
}

/// The characters of an optional string.
pub open spec fn opt_chars(o: Option<String>) -> Option<Seq<char>> {
    match o {
        Some(s) => Some(s@),
        None => None,
    }
}

impl View for FieldAccumulator {
    type V = StatusFields;

    closed spec fn view(&self) -> StatusFields {
        StatusFields {
            name: opt_chars(self.process_name),
            state: opt_chars(self.process_state),
            pid: self.pid,
            ppid: self.ppid,
            threads: self.threads_used,
            ram: opt_chars(self.ram_usage),
        }
    }
}

proof fn lemma_colon_index(line: Seq<char>)
    ensures
        0 <= colon_index(line) <= line.len(),
        forall|j: int| 0 <= j < colon_index(line) ==> line[j] != ':',
        colon_index(line) < line.len() ==> line[colon_index(line)] == ':',
    decreases line.len(),
{
    if line.len() > 0 && line[0] != ':' {
        lemma_colon_index(line.drop_first());
        assert forall|j: int| 0 <= j < colon_index(line) implies line[j] != ':' by {
            if j > 0 {
                assert(line[j] == line.drop_first()[j - 1]);
            }
        }
    }
}

/// Splits a line into its key, its value, and the text after its first colon
/// as written.
fn split_line(line: &Vec<char>) -> (r: (String, String, String))
    ensures
        r.0@ == line_key(line@),
        r.1@ == line_value(line@),
        r.2@ == after_colon(line@),
{
    let mut word = String::new();
    let mut attribute_value = String::new();
    let mut raw_value = String::new();
    let mut word_ended = false;
    let ghost k = colon_index(line@);
    proof {
        lemma_colon_index(line@);
    }
    let n = line.len();
    for i in 0..n
        invariant
            n == line@.len(),
            k == colon_index(line@),
            0 <= k <= n,
            forall|j: int| 0 <= j < k ==> line@[j] != ':',
            k < n ==> line@[k] == ':',
            word_ended == (k < i),
            !word_ended ==> word@ == without_tabs(line@.take(i as int)) && attribute_value@
                == Seq::<char>::empty(),
            word_ended ==> word@ == without_tabs(line@.take(k)) && attribute_value@
                == value_chars(line@.subrange(k + 1, i as int)),
            raw_value@ == (if word_ended {
                line@.subrange(k + 1, i as int)
            } else {
                Seq::<char>::empty()
            }),
    {
        let c = line[i];
        assert(line@.take(i + 1).drop_last() =~= line@.take(i as int));
        if word_ended {
            assert(line@.subrange(k + 1, i + 1).drop_last() =~= line@.subrange(k + 1, i as int));
        }
        if word_ended {
            push_char(&mut raw_value, c);
            assert(line@.subrange(k + 1, i + 1) =~= line@.subrange(k + 1, i as int).push(c));
        }
        if c == ':' {
            if !word_ended {
                assert(line@.subrange(k + 1, i + 1) =~= Seq::<char>::empty());
            }
            word_ended = true;
        } else if !word_ended {
            if c != '\t' {
                push_char(&mut word, c);
            }
        } else if c != ' ' && c != '\t' {
            push_char(&mut attribute_value, c);
        }
    }
    assert(line@.take(n as int) =~= line@);
    assert(k < n ==> line@.subrange(k + 1, n as int) =~= line@.skip(k + 1));
    (word, attribute_value, raw_value)
}

/// The key table: the six keys with their kinds.
fn key_table() -> (table: Vec<AttributeAndValue>)
    ensures
        is_key_table(table@),
{
    let mut table: Vec<AttributeAndValue> = Vec::new();
    proof {
        reveal_strlit("Name");
        reveal_strlit("State");
        reveal_strlit("Pid");
        reveal_strlit("PPid");
        reveal_strlit("VmRSS");
        reveal_strlit("Threads");
    }
    table.push(AttributeAndValue::new(AttributeType::Name, String::from_str("Name")));
    table.push(AttributeAndValue::new(AttributeType::State, String::from_str("State")));
    table.push(AttributeAndValue::new(AttributeType::Pid, String::from_str("Pid")));
    table.push(AttributeAndValue::new(AttributeType::Ppid, String::from_str("PPid")));
    table.push(AttributeAndValue::new(AttributeType::RamUsage, String::from_str("VmRSS")));
    table.push(AttributeAndValue::new(AttributeType::Threads, String::from_str("Threads")));
    assert(table@[0].att_name@ =~= key_names()[0]);
    assert(table@[1].att_name@ =~= key_names()[1]);
    assert(table@[2].att_name@ =~= key_names()[2]);
    assert(table@[3].att_name@ =~= key_names()[3]);
    assert(table@[4].att_name@ =~= key_names()[4]);
    assert(table@[5].att_name@ =~= key_names()[5]);
    table
}

/// The kind of line that `word` names, looked up in the key table.
fn attribute_of(attributes: &Vec<AttributeAndValue>, word: &String) -> (t: AttributeType)
    requires
        is_key_table(attributes@),
    ensures
        t == attribute_for_key(word@),
{
    let mut i: usize = 0;
    while i < attributes.len()
        invariant
            is_key_table(attributes@),
            i <= attributes@.len(),
            forall|j: int| 0 <= j < i ==> key_names()[j] != word@,
        decreases attributes.len() - i,
    {
        if attributes[i].att_name == *word {
            let t = attributes[i].att_type;
            assert(key_names()[i as int] == word@);
            assert(key_names()[0] != key_names()[1] && key_names()[0] != key_names()[2]
                && key_names()[0] != key_names()[3] && key_names()[0] != key_names()[4]
                && key_names()[0] != key_names()[5]) by {
                assert(key_names()[0].len() == 4 && key_names()[3].len() == 4);
                assert(key_names()[0][0] != key_names()[3][0]);
            }
            assert(key_names()[1] != key_names()[2] && key_names()[1] != key_names()[3]
                && key_names()[1] != key_names()[4] && key_names()[1] != key_names()[5]) by {
                assert(key_names()[1][0] != key_names()[4][0]);
            }
            assert(key_names()[2] != key_names()[3] && key_names()[2] != key_names()[4]
                && key_names()[2] != key_names()[5]);
            assert(key_names()[3] != key_names()[4] && key_names()[3] != key_names()[5]);
            assert(key_names()[4] != key_names()[5]);
            return t;
        }
        i = i + 1;
    }
    AttributeType::Unknown
}

proof fn lemma_whitespace_index(s: Seq<char>)
    ensures
        0 <= whitespace_index(s) <= s.len(),
        forall|j: int| 0 <= j < whitespace_index(s) ==> !text::is_whitespace(s[j]),
        whitespace_index(s) < s.len() ==> text::is_whitespace(s[whitespace_index(s)]),
    decreases s.len(),
{
    if s.len() > 0 && !text::is_whitespace(s[0]) {
        lemma_whitespace_index(s.drop_first());
        assert forall|j: int| 0 <= j < whitespace_index(s) implies !text::is_whitespace(s[j]) by {
            if j > 0 {
                assert(s[j] == s.drop_first()[j - 1]);
            }
        }
    }
}

/// The first whitespace-separated token of `s`.
fn leading_token(s: &str) -> (token: String)
    ensures
        token@ == first_token(s@),
{
    let chars = chars_of(s);
    proof {
        lemma_whitespace_index(s@);
    }
    let mut end: usize = 0;
    while end < chars.len() && !char_is_whitespace(chars[end])
        invariant
            chars@ == s@,
            end <= chars@.len(),
            end <= whitespace_index(s@),
            0 <= whitespace_index(s@) <= s@.len(),
            forall|j: int| 0 <= j < whitespace_index(s@) ==> !text::is_whitespace(s@[j]),
            whitespace_index(s@) < s@.len() ==> text::is_whitespace(s@[whitespace_index(s@)]),
        decreases chars.len() - end,
    {
        end = end + 1;
    }
    assert(s@.subrange(0, end as int) =~= s@.take(end as int));
    string_of_range(&chars, 0, end)
}

impl FieldAccumulator {
    fn new() -> (acc: FieldAccumulator)
        ensures
            acc@ == no_fields(),
    {
        FieldAccumulator {
            process_name: None,
            process_state: None,
            pid: None,
            ppid: None,
            threads_used: None,
            ram_usage: None,
        }
    }

    /// Takes one more line into account.
    fn apply_line(&mut self, attributes: &Vec<AttributeAndValue>, line: &Vec<char>)
        requires
            is_key_table(attributes@),
        ensures
            final(self)@ == apply_line(old(self)@, line@),
    {
        let (word, attribute_value, raw_value) = split_line(line);
        let type_check = attribute_of(attributes, &word);
        match type_check {
            AttributeType::Name => {
                self.process_name = Some(trim_str(raw_value.as_str()));
            },
            AttributeType::State => {
                let trimmed = trim_str(raw_value.as_str());
                self.process_state = Some(leading_token(trimmed.as_str()));
            },
            AttributeType::Pid => {
                let trimmed = trim_str(attribute_value.as_str());
                self.pid = parse_u32(trimmed.as_str());
            },
            AttributeType::Ppid => {
                let cleaned_val = u32_cleaner(attribute_value);
                self.ppid = parse_u32(cleaned_val.as_str());
            },
            AttributeType::Threads => {
                let cleaned_val = u32_cleaner(attribute_value);
                self.threads_used = parse_u32(cleaned_val.as_str());
            },
            AttributeType::RamUsage => {
                let cleaned_val = u32_cleaner(attribute_value);
                if cleaned_val.as_str().is_empty() {
                    self.ram_usage = None;
                } else {
                    self.ram_usage = Some(cleaned_val);
                }
            },
            _ => {},
        }
    }
}

/// Reads the text of a `/proc/[pid]/status` file: line by line, the value of
/// each `Name`, `State`, `Pid`, `PPid`, `VmRSS` and `Threads` line (the last
/// such line of a key counts). The name is kept as written, the state is its
/// one-letter code (`S (sleeping)` gives `S`). Fails with `MissingRequiredField` unless name,
/// state, pid, parent pid and thread count are all given; the memory is `"0"`
/// when no `VmRSS` line gives digits.
pub fn process_data_definer(content: &str) -> (r: Result<ProcessStatus, StatusError>)
    ensures
        match r {
            Ok(p) => spec_process_data(content@) == Some(p@),
            Err(e) => spec_process_data(content@) is None && e == StatusError::MissingRequiredField,
        },
{
    let attributes = key_table();
    let mut acc = FieldAccumulator::new();
    let mut line: Vec<char> = Vec::new();
    let ghost mut done: Seq<Seq<char>> = Seq::empty();
    for c in it: content.chars()
        invariant
            it.seq() == content@,
            is_key_table(attributes@),
            scan_lines(content@.take(it.index() as int)) == (done, line@),
            acc@ == fields_of_lines(done),
    {
        assert(content@.take(it.index() + 1).drop_last() =~= content@.take(it.index() as int));
        if c == '\n' {
            let ghost before = line@;
            if line.len() > 0 && line[line.len() - 1] == '\r' {
                line.pop();
            }
            assert(line@ =~= strip_cr(before));
            acc.apply_line(&attributes, &line);
            proof {
                assert(done.push(line@).drop_last() =~= done);
                done = done.push(line@);
            }
            line = Vec::new();
        } else {
            line.push(c);
        }
    }
    assert(content@.take(content@.len() as int) =~= content@);
    if line.len() > 0 {
        acc.apply_line(&attributes, &line);
        assert(done.push(line@).drop_last() =~= done);
    }
    let FieldAccumulator { process_name, process_state, pid, ppid, threads_used, ram_usage } =
        acc;
    match (process_name, process_state, pid, ppid, threads_used) {
        (Some(process_name), Some(state), Some(pid), Some(ppid), Some(threads_used)) => {
            let ram_usage_kb = match ram_usage {
                Some(d) => d,
                None => {
                    proof {
                        reveal_strlit("0");
                    }
                    let zero = String::from_str("0");
                    assert(zero@ =~= seq!['0']);
                    zero
                },
            };
            Ok(ProcessStatus { pid, ppid, process_name, state, threads_used, ram_usage_kb })
        },
        _ => Err(StatusError::MissingRequiredField),
    }
}

/// Scanning text that ends a line, then more text without a newline, leaves
/// the lines of the first text complete and the new text pending.
proof fn lemma_scan_lines_append(content: Seq<char>, tail: Seq<char>)
    requires
        scan_lines(content).1.len() == 0,
        !tail.contains('\n'),
    ensures
        scan_lines(content + tail) == (scan_lines(content).0, tail),
    decreases tail.len(),
{
    if tail.len() == 0 {
        assert(content + tail =~= content);
        assert(scan_lines(content).1 =~= tail);
    } else {
        assert(!tail.drop_last().contains('\n')) by {
            if tail.drop_last().contains('\n') {
                let j = choose|j: int| 0 <= j < tail.drop_last().len() && tail.drop_last()[j] == '\n';
                assert(tail[j] == '\n');
            }
        }
        lemma_scan_lines_append(content, tail.drop_last());
        assert((content + tail).drop_last() =~= content + tail.drop_last());
        assert(tail.last() != '\n') by {
            assert(tail[tail.len() - 1] == tail.last());
        }
        assert(tail.drop_last().push(tail.last()) =~= tail);
    }
}

/// The fields after `lines` are read in order, starting from `f`.
pub open spec fn apply_lines(f: StatusFields, lines: Seq<Seq<char>>) -> StatusFields
    decreases lines.len(),
{
    if lines.len() == 0 {
        f
    } else {
        apply_line(apply_lines(f, lines.drop_last()), lines.last())
    }
}

proof fn lemma_fields_of_lines(lines: Seq<Seq<char>>)
    ensures
        fields_of_lines(lines) == apply_lines(no_fields(), lines),
    decreases lines.len(),
{
    if lines.len() > 0 {
        lemma_fields_of_lines(lines.drop_last());
    }
}

proof fn lemma_apply_lines_concat(f: StatusFields, first: Seq<Seq<char>>, second: Seq<Seq<char>>)
    ensures
        apply_lines(f, first + second) == apply_lines(apply_lines(f, first), second),
    decreases second.len(),
{
    if second.len() == 0 {
        assert(first + second =~= first);
    } else {
        lemma_apply_lines_concat(f, first, second.drop_last());
        assert((first + second).drop_last() =~= first + second.drop_last());
        assert((first + second).last() == second.last());
    }
}

/// Scanning a text that ends its lines, then more text, gives the lines of
/// the first text followed by those of the second.
proof fn lemma_scan_lines_concat(first: Seq<char>, second: Seq<char>)
    requires
        scan_lines(first).1.len() == 0,
    ensures
        scan_lines(first + second) == (
            scan_lines(first).0 + scan_lines(second).0,
            scan_lines(second).1,
        ),
    decreases second.len(),
{
    let done = scan_lines(first).0;
    if second.len() == 0 {
        assert(first + second =~= first);
        assert(done + Seq::<Seq<char>>::empty() =~= done);
        assert(scan_lines(first).1 =~= Seq::<char>::empty());
    } else {
        lemma_scan_lines_concat(first, second.drop_last());
        assert((first + second).drop_last() =~= first + second.drop_last());
        assert((first + second).last() == second.last());
        let prev = scan_lines(second.drop_last());
        assert((done + prev.0).push(strip_cr(prev.1)) =~= done + prev.0.push(strip_cr(prev.1)));
    }
}

/// The lines of a text that ends its lines, then more text, are the lines of
/// the first text followed by those of the second.
proof fn lemma_lines_of_concat(first: Seq<char>, second: Seq<char>)
    requires
        scan_lines(first).1.len() == 0,
    ensures
        lines_of(first + second) == scan_lines(first).0 + lines_of(second),
{
    lemma_scan_lines_concat(first, second);
    let done = scan_lines(first).0;
    let s2 = scan_lines(second);
    assert((done + s2.0).push(s2.1) =~= done + s2.0.push(s2.1));
}

/// A complete line whose key is none of the keys that the parser reads,
/// inserted at the start of any line of a status text, leaves the process
/// that the text describes unchanged.
pub proof fn lemma_unknown_line_ignored(before: Seq<char>, line: Seq<char>, after: Seq<char>)
    requires
        before.len() == 0 || before.last() == '\n',
        !line.contains('\n'),
        attribute_for_key(line_key(strip_cr(line))) == AttributeType::Unknown,
    ensures
        spec_process_data(before + line.push('\n') + after) == spec_process_data(before + after),
{
    assert(scan_lines(before).1.len() == 0);
    lemma_scan_lines_append(before, line);
    let extended = before + line.push('\n');
    assert(extended.drop_last() =~= before + line);
    assert(extended.last() == '\n');
    let done = scan_lines(before).0;
    let u = strip_cr(line);
    assert(scan_lines(extended) == (done.push(u), Seq::<char>::empty()));
    lemma_lines_of_concat(extended, after);
    lemma_lines_of_concat(before, after);
    let rest = lines_of(after);
    lemma_fields_of_lines(done.push(u) + rest);
    lemma_fields_of_lines(done + rest);
    lemma_apply_lines_concat(no_fields(), done.push(u), rest);
    lemma_apply_lines_concat(no_fields(), done, rest);
    assert(done.push(u).drop_last() =~= done);
}

/// A line whose key is none of the keys that the parser reads, put anywhere
/// in a sequence of lines, leaves the fields that the lines give unchanged.
pub proof fn lemma_unknown_line_in_lines(
    before: Seq<Seq<char>>,
    line: Seq<char>,
    after: Seq<Seq<char>>,
)
    requires
        attribute_for_key(line_key(line)) == AttributeType::Unknown,
    ensures
        fields_of_lines(before.push(line) + after) == fields_of_lines(before + after),
{
    lemma_fields_of_lines(before.push(line) + after);
    lemma_fields_of_lines(before + after);
    lemma_apply_lines_concat(no_fields(), before.push(line), after);
    lemma_apply_lines_concat(no_fields(), before, after);
    assert(before.push(line).drop_last() =~= before);
}

/// A line whose key is none of the keys that the parser reads, added after a
/// last line that has no newline (and does not end in a carriage return),
/// leaves the process that the text describes unchanged.
pub proof fn lemma_unknown_line_appended(content: Seq<char>, line: Seq<char>)
    requires
        content.len() > 0,
        content.last() != '\n',
        content.last() != '\r',
        !line.contains('\n'),
        attribute_for_key(line_key(line)) == AttributeType::Unknown,
    ensures
        spec_process_data(content + seq!['\n'] + line) == spec_process_data(content),
{
    let prev = scan_lines(content.drop_last());
    let done = prev.0;
    let rest = prev.1.push(content.last());
    assert(scan_lines(content) == (done, rest));
    assert(rest.last() == content.last());
    assert(strip_cr(rest) == rest);
    let ended = content.push('\n');
    assert(ended.drop_last() =~= content);
    assert(ended.last() == '\n');
    assert(scan_lines(ended) == (done.push(rest), Seq::<char>::empty()));
    lemma_scan_lines_append(ended, line);
    assert(content + seq!['\n'] + line =~= ended + line);
    assert(lines_of(content) == done.push(rest));
    if line.len() > 0 {
        assert(lines_of(ended + line) == done.push(rest).push(line));
        assert(done.push(rest).push(line).drop_last() =~= done.push(rest));
    } else {
        assert(lines_of(ended + line) == done.push(rest));
    }
}

/// Two lines that set different fields give the same fields in either order.
pub proof fn lemma_lines_commute(f: StatusFields, first: Seq<char>, second: Seq<char>)
    requires
        attribute_for_key(line_key(first)) != attribute_for_key(line_key(second)),
    ensures
        apply_line(apply_line(f, first), second) == apply_line(apply_line(f, second), first),
{
}

/// Of two lines that set the same field, the later one decides it.
pub proof fn lemma_later_line_wins(f: StatusFields, earlier: Seq<char>, later: Seq<char>)
    requires
        attribute_for_key(line_key(earlier)) == attribute_for_key(line_key(later)),
    ensures
        apply_line(apply_line(f, earlier), later) == apply_line(f, later),
{
}

/// `s` with each newline preceded by a carriage return.
pub open spec fn with_crlf(s: Seq<char>) -> Seq<char>
    decreases s.len(),
{
    if s.len() == 0 {
        Seq::empty()
    } else if s.last() == '\n' {
        with_crlf(s.drop_last()) + seq!['\r', '\n']
    } else {
        with_crlf(s.drop_last()).push(s.last())
    }
}

proof fn lemma_scan_lines_crlf(s: Seq<char>)
    requires
        !s.contains('\r'),
    ensures
        scan_lines(with_crlf(s)) == scan_lines(s),
        !scan_lines(s).1.contains('\r'),
    decreases s.len(),
{
    if s.len() > 0 {
        let p = s.drop_last();
        assert(!p.contains('\r')) by {
            if p.contains('\r') {
                let j = choose|j: int| 0 <= j < p.len() && p[j] == '\r';
                assert(s[j] == '\r');
            }
        }
        lemma_scan_lines_crlf(p);
        let prev = scan_lines(p);
        assert(s.last() != '\r') by {
            assert(s[s.len() - 1] == s.last());
        }
        if s.last() == '\n' {
            let t = with_crlf(p) + seq!['\r', '\n'];
            assert(t.drop_last() =~= with_crlf(p).push('\r'));
            assert((with_crlf(p).push('\r')).drop_last() =~= with_crlf(p));
            assert(prev.1.push('\r').drop_last() =~= prev.1);
            if prev.1.len() > 0 {
                assert(prev.1[prev.1.len() - 1] != '\r');
            }
            assert(!Seq::<char>::empty().contains('\r'));
            assert(t.last() == '\n');
            assert(t.drop_last().last() == '\r');
            assert(scan_lines(t.drop_last()) == (prev.0, prev.1.push('\r')));
            assert(scan_lines(t) == (prev.0.push(prev.1), Seq::<char>::empty()));
            assert(with_crlf(s) == t);
        } else {
            assert(with_crlf(p).push(s.last()).drop_last() =~= with_crlf(p));
            assert(!prev.1.push(s.last()).contains('\r')) by {
                if prev.1.push(s.last()).contains('\r') {
                    let j = choose|j: int|
                        0 <= j < prev.1.push(s.last()).len() && prev.1.push(s.last())[j] == '\r';
                    if j < prev.1.len() {
                        assert(prev.1[j] == '\r');
                    }
                }
            }
        }
    }
}

/// A status text written with carriage return and newline at each line end
/// describes the same process as the text with newlines alone.
pub proof fn lemma_crlf_same_process(content: Seq<char>)
    requires
        !content.contains('\r'),
    ensures
        spec_process_data(with_crlf(content)) == spec_process_data(content),
{
    lemma_scan_lines_crlf(content);
}


/// A status line: the key, a colon and a tab, then the value.
pub open spec fn status_line(key: Seq<char>, value: Seq<char>) -> Seq<char> {
    key + seq![':', '\t'] + value
}

/// The text made of `lines`, each followed by a newline.
pub open spec fn text_of_lines(lines: Seq<Seq<char>>) -> Seq<char>
    decreases lines.len(),
{
    if lines.len() == 0 {
        Seq::empty()
    } else {
        lines[0] + seq!['\n'] + text_of_lines(lines.drop_first())
    }
}

/// A status text as the kernel writes one: the name, the state (its code, a
/// space and a description), the pid, the parent pid and the thread count in
/// decimal, and the resident memory in kB.
pub open spec fn status_text(
    name: Seq<char>,
    state_code: Seq<char>,
    state_detail: Seq<char>,
    pid: u32,
    ppid: u32,
    threads: u32,
    ram_kb: Seq<char>,
) -> Seq<char> {
    text_of_lines(
        seq![
            status_line(key_names()[0], name),
            status_line(key_names()[1], state_code + seq![' '] + state_detail),
            status_line(key_names()[2], text::decimal(pid as nat)),
            status_line(key_names()[3], text::decimal(ppid as nat)),
            status_line(key_names()[5], text::decimal(threads as nat)),
            status_line(key_names()[4], ram_kb + seq![' ', 'k', 'B']),
        ],
    )
}

proof fn lemma_lines_of_text(lines: Seq<Seq<char>>)
    requires
        forall|i: int| 0 <= i < lines.len() ==> !(#[trigger] lines[i]).contains('\n'),
    ensures
        lines_of(text_of_lines(lines)) == lines.map_values(|l: Seq<char>| strip_cr(l)),
    decreases lines.len(),
{
    if lines.len() == 0 {
        assert(lines_of(Seq::<char>::empty()) =~= Seq::<Seq<char>>::empty());
        assert(lines.map_values(|l: Seq<char>| strip_cr(l)) =~= Seq::<Seq<char>>::empty());
    } else {
        let first = lines[0];
        let rest = lines.drop_first();
        assert forall|i: int| 0 <= i < rest.len() implies !(#[trigger] rest[i]).contains('\n') by {
            assert(rest[i] == lines[i + 1]);
        }
        lemma_lines_of_text(rest);
        assert(scan_lines(Seq::<char>::empty()).1.len() == 0);
        lemma_scan_lines_append(Seq::<char>::empty(), first);
        assert(Seq::<char>::empty() + first =~= first);
        let ended = first.push('\n');
        assert(ended.drop_last() =~= first);
        assert(ended.last() == '\n');
        assert(scan_lines(ended) == (Seq::<Seq<char>>::empty().push(strip_cr(first)), Seq::<char>::empty()));
        lemma_lines_of_concat(ended, text_of_lines(rest));
        assert(first + seq!['\n'] + text_of_lines(rest) =~= ended + text_of_lines(rest));
        assert(Seq::<Seq<char>>::empty().push(strip_cr(first)) + rest.map_values(
            |l: Seq<char>| strip_cr(l),
        ) =~= lines.map_values(|l: Seq<char>| strip_cr(l)));
    }
}

proof fn lemma_without_tabs_unchanged(s: Seq<char>)
    requires
        forall|i: int| 0 <= i < s.len() ==> s[i] != '\t',
    ensures
        without_tabs(s) == s,
    decreases s.len(),
{
    if s.len() > 0 {
        lemma_without_tabs_unchanged(s.drop_last());
        assert(s[s.len() - 1] != '\t');
        assert(s.drop_last().push(s.last()) =~= s);
    }
}

proof fn lemma_value_chars_concat(a: Seq<char>, b: Seq<char>)
    ensures
        value_chars(a + b) == value_chars(a) + value_chars(b),
    decreases b.len(),
{
    if b.len() == 0 {
        assert(a + b =~= a);
        assert(value_chars(a) + value_chars(b) =~= value_chars(a));
    } else {
        lemma_value_chars_concat(a, b.drop_last());
        assert((a + b).drop_last() =~= a + b.drop_last());
        assert((a + b).last() == b.last());
        assert((value_chars(a) + value_chars(b.drop_last())).push(b.last()) =~= value_chars(a)
            + value_chars(b.drop_last()).push(b.last()));
    }
}

proof fn lemma_value_chars_unchanged(s: Seq<char>)
    requires
        forall|i: int| 0 <= i < s.len() ==> is_value_char(s[i]),
    ensures
        value_chars(s) == s,
    decreases s.len(),
{
    if s.len() > 0 {
        lemma_value_chars_unchanged(s.drop_last());
        assert(is_value_char(s[s.len() - 1]));
        assert(s.drop_last().push(s.last()) =~= s);
    }
}

/// The key, value and text after the colon of a status line.
proof fn lemma_status_line_parts(key: Seq<char>, value: Seq<char>)
    requires
        forall|i: int| 0 <= i < key.len() ==> key[i] != ':' && key[i] != '\t',
    ensures
        line_key(status_line(key, value)) == key,
        after_colon(status_line(key, value)) == seq!['\t'] + value,
        line_value(status_line(key, value)) == value_chars(value),
{
    let line = status_line(key, value);
    lemma_colon_index(line);
    assert(line[key.len() as int] == ':');
    assert forall|j: int| 0 <= j < key.len() implies line[j] != ':' by {
        assert(line[j] == key[j]);
    }
    assert(colon_index(line) == key.len());
    assert(line.take(key.len() as int) =~= key);
    lemma_without_tabs_unchanged(key);
    assert(line.skip(key.len() + 1 as int) =~= seq!['\t'] + value);
    lemma_value_chars_concat(seq!['\t'], value);
    lemma_value_chars_single('\t');
    assert(Seq::<char>::empty() + value_chars(value) =~= value_chars(value));
}

proof fn lemma_key_names(j: int)
    requires
        0 <= j < 6,
    ensures
        forall|i: int|
            0 <= i < key_names()[j].len() ==> key_names()[j][i] != ':' && key_names()[j][i]
                != '\t',
        attribute_for_key(key_names()[j]) == key_types()[j],
{
    assert(key_names()[0] != key_names()[1] && key_names()[0] != key_names()[2]
        && key_names()[0] != key_names()[3] && key_names()[0] != key_names()[4]
        && key_names()[0] != key_names()[5]) by {
        assert(key_names()[0].len() == 4 && key_names()[3].len() == 4);
        assert(key_names()[0][0] != key_names()[3][0]);
    }
    assert(key_names()[1] != key_names()[2] && key_names()[1] != key_names()[3]
        && key_names()[1] != key_names()[4] && key_names()[1] != key_names()[5]) by {
        assert(key_names()[1][0] != key_names()[4][0]);
    }
    assert(key_names()[2] != key_names()[3] && key_names()[2] != key_names()[4]
        && key_names()[2] != key_names()[5]);
    assert(key_names()[3] != key_names()[4] && key_names()[3] != key_names()[5]);
    assert(key_names()[4] != key_names()[5]);
}

proof fn lemma_digit_value_chars(s: Seq<char>)
    requires
        text::all_digits(s),
    ensures
        forall|i: int| 0 <= i < s.len() ==> is_value_char(s[i]),
{
    assert forall|i: int| 0 <= i < s.len() implies is_value_char(s[i]) by {
        assert(text::is_digit(s[i]));
    }
}

/// The state code of a `State` line whose value is a code without
/// whitespace, a space and any description.
proof fn lemma_state_of_line(code: Seq<char>, detail: Seq<char>)
    requires
        code.len() > 0,
        forall|i: int| 0 <= i < code.len() ==> !text::is_whitespace(#[trigger] code[i]),
    ensures
        state_of_line(status_line(key_names()[1], code + seq![' '] + detail)) == code,
{
    lemma_key_names(1);
    let value = code + seq![' '] + detail;
    lemma_status_line_parts(key_names()[1], value);
    let e = seq![' '] + detail;
    assert(value =~= code + e);
    assert(seq!['\t'] + value =~= seq!['\t'] + (code + e));
    text::lemma_trim_start_skips('\t', code + e);
    assert((code + e)[0] == code[0]);
    assert(text::trim_start(code + e) == code + e);
    assert(code[code.len() - 1] == code.last());
    text::lemma_trim_end_after(code, e);
    let t = text::trim_end(e);
    text::lemma_trim_end_prefix(e);
    let s = code + t;
    assert(text::trim(seq!['\t'] + value) == s);
    lemma_whitespace_index(s);
    let k = whitespace_index(s);
    if k < code.len() {
        assert(s[k] == code[k]);
    }
    if t.len() > 0 {
        assert(t[0] == e[0]);
        assert(s[code.len() as int] == ' ');
        if k > code.len() {
            assert(!text::is_whitespace(s[code.len() as int]));
        }
    }
    assert(k == code.len());
    assert(s.take(k) =~= code);
}

proof fn lemma_value_chars_single(c: char)
    ensures
        value_chars(seq![c]) == (if is_value_char(c) {
            seq![c]
        } else {
            Seq::<char>::empty()
        }),
{
    let s = seq![c];
    assert(s.drop_last() =~= Seq::<char>::empty());
    assert(value_chars(s.drop_last()) == Seq::<char>::empty());
    assert(s.last() == c);
    assert(Seq::<char>::empty().push(c) =~= s);
}

proof fn lemma_name_line(f: StatusFields, name: Seq<char>)
    requires
        name.len() > 0,
        !text::is_whitespace(name[0]),
        !text::is_whitespace(name.last()),
    ensures
        apply_line(f, status_line(key_names()[0], name)) == (StatusFields { name: Some(name), ..f }),
{
    lemma_key_names(0);
    lemma_status_line_parts(key_names()[0], name);
    text::lemma_trim_start_skips('\t', name);
    text::lemma_trim_unchanged(name);
}

proof fn lemma_state_line(f: StatusFields, code: Seq<char>, detail: Seq<char>)
    requires
        code.len() > 0,
        forall|i: int| 0 <= i < code.len() ==> !text::is_whitespace(#[trigger] code[i]),
    ensures
        apply_line(f, status_line(key_names()[1], code + seq![' '] + detail)) == (StatusFields { state: Some(code), ..f }),
{
    lemma_key_names(1);
    lemma_status_line_parts(key_names()[1], code + seq![' '] + detail);
    lemma_state_of_line(code, detail);
}

proof fn lemma_number_line_value(n: u32)
    ensures
        line_value(status_line(key_names()[2], text::decimal(n as nat))) == text::decimal(
            n as nat,
        ),
        line_value(status_line(key_names()[3], text::decimal(n as nat))) == text::decimal(
            n as nat,
        ),
        line_value(status_line(key_names()[5], text::decimal(n as nat))) == text::decimal(
            n as nat,
        ),
        text::trim(text::decimal(n as nat)) == text::decimal(n as nat),
        text::digits_of(text::decimal(n as nat)) == text::decimal(n as nat),
        text::spec_parse_u32(text::decimal(n as nat)) == Some(n),
{
    let d = text::decimal(n as nat);
    text::lemma_decimal(n as nat);
    text::lemma_parse_decimal(n);
    lemma_key_names(2);
    lemma_key_names(3);
    lemma_key_names(5);
    lemma_status_line_parts(key_names()[2], d);
    lemma_status_line_parts(key_names()[3], d);
    lemma_status_line_parts(key_names()[5], d);
    lemma_digit_value_chars(d);
    lemma_value_chars_unchanged(d);
    assert(!text::is_whitespace(d[0]));
    assert(!text::is_whitespace(d[d.len() - 1]));
    text::lemma_trim_unchanged(d);
    text::lemma_digits_of_digits(d);
}

proof fn lemma_pid_lines(f: StatusFields, n: u32)
    ensures
        apply_line(f, status_line(key_names()[2], text::decimal(n as nat))) == (StatusFields { pid: Some(n), ..f }),
        apply_line(f, status_line(key_names()[3], text::decimal(n as nat))) == (StatusFields { ppid: Some(n), ..f }),
        apply_line(f, status_line(key_names()[5], text::decimal(n as nat))) == (StatusFields { threads: Some(n), ..f }),
{
    let d = text::decimal(n as nat);
    lemma_number_line_value(n);
    lemma_key_names(2);
    lemma_key_names(3);
    lemma_key_names(5);
    text::lemma_decimal(n as nat);
    lemma_status_line_parts(key_names()[2], d);
    lemma_status_line_parts(key_names()[3], d);
    lemma_status_line_parts(key_names()[5], d);
}

proof fn lemma_ram_line(f: StatusFields, ram_kb: Seq<char>)
    requires
        ram_kb.len() > 0,
        text::all_digits(ram_kb),
    ensures
        apply_line(f, status_line(key_names()[4], ram_kb + seq![' ', 'k', 'B'])) == (StatusFields { ram: Some(ram_kb), ..f }),
{
    let kb = seq![' ', 'k', 'B'];
    lemma_key_names(4);
    lemma_status_line_parts(key_names()[4], ram_kb + kb);
    lemma_digit_value_chars(ram_kb);
    lemma_value_chars_concat(ram_kb, kb);
    lemma_value_chars_unchanged(ram_kb);
    lemma_value_chars_concat(seq![' ', 'k'], seq!['B']);
    lemma_value_chars_concat(seq![' '], seq!['k']);
    lemma_value_chars_single(' ');
    lemma_value_chars_single('k');
    lemma_value_chars_single('B');
    assert(seq![' '] + seq!['k'] =~= seq![' ', 'k']);
    assert(seq![' ', 'k'] + seq!['B'] =~= kb);
    assert(value_chars(kb) =~= seq!['k', 'B']);
    text::lemma_digits_of_concat(ram_kb, seq!['k', 'B']);
    text::lemma_digits_of_digits(ram_kb);
    assert(text::digits_of(seq!['k', 'B']) =~= Seq::<char>::empty()) by {
        let one = seq!['k'];
        let two = seq!['k', 'B'];
        assert(one.drop_last() =~= Seq::<char>::empty());
        assert(text::digits_of(one.drop_last()) == Seq::<char>::empty());
        assert(one.last() == 'k');
        assert(text::digits_of(one) == Seq::<char>::empty());
        assert(two.drop_last() =~= one);
        assert(two.last() == 'B');
        assert(text::digits_of(two) == text::digits_of(one));
    }
    assert(ram_kb + Seq::<char>::empty() =~= ram_kb);
}

proof fn lemma_fields_of_six(
    a: Seq<char>,
    b: Seq<char>,
    c: Seq<char>,
    d: Seq<char>,
    e: Seq<char>,
    g: Seq<char>,
)
    ensures
        fields_of_lines(seq![a, b, c, d, e, g]) == apply_line(
            apply_line(apply_line(apply_line(apply_line(apply_line(no_fields(), a), b), c), d), e),
            g,
        ),
{
    let s6 = seq![a, b, c, d, e, g];
    let s5 = seq![a, b, c, d, e];
    let s4 = seq![a, b, c, d];
    let s3 = seq![a, b, c];
    let s2 = seq![a, b];
    let s1 = seq![a];
    let s0 = Seq::<Seq<char>>::empty();
    assert(s1.drop_last() =~= s0);
    assert(s2.drop_last() =~= s1);
    assert(s3.drop_last() =~= s2);
    assert(s4.drop_last() =~= s3);
    assert(s5.drop_last() =~= s4);
    assert(s6.drop_last() =~= s5);
    assert(fields_of_lines(s0) == no_fields());
    assert(fields_of_lines(s1) == apply_line(no_fields(), a));
    assert(fields_of_lines(s2) == apply_line(fields_of_lines(s1), b));
    assert(fields_of_lines(s3) == apply_line(fields_of_lines(s2), c));
    assert(fields_of_lines(s4) == apply_line(fields_of_lines(s3), d));
    assert(fields_of_lines(s5) == apply_line(fields_of_lines(s4), e));
    assert(fields_of_lines(s6) == apply_line(fields_of_lines(s5), g));
}

/// Reading a status text as the kernel writes it gives back what was
/// written: the name as written, the state code, the pid, parent pid and
/// thread count, and every digit of the resident memory, whatever their
/// lengths.
pub proof fn lemma_status_text_round_trip(
    name: Seq<char>,
    state_code: Seq<char>,
    state_detail: Seq<char>,
    pid: u32,
    ppid: u32,
    threads: u32,
    ram_kb: Seq<char>,
)
    requires
        name.len() > 0,
        !text::is_whitespace(name[0]),
        !text::is_whitespace(name.last()),
        !name.contains('\n'),
        state_code.len() > 0,
        forall|i: int| 0 <= i < state_code.len() ==> !text::is_whitespace(#[trigger] state_code[i]),
        !state_detail.contains('\n'),
        ram_kb.len() > 0,
        text::all_digits(ram_kb),
    ensures
        spec_process_data(status_text(name, state_code, state_detail, pid, ppid, threads, ram_kb))
            == Some(
            ProcessStatusView {
                pid: pid,
                ppid: ppid,
                process_name: name,
                state: state_code,
                threads_used: threads,
                ram_usage_kb: ram_kb,
            },
        ),
{
    let dp = text::decimal(pid as nat);
    let dq = text::decimal(ppid as nat);
    let dt = text::decimal(threads as nat);
    text::lemma_decimal(pid as nat);
    text::lemma_decimal(ppid as nat);
    text::lemma_decimal(threads as nat);
    text::lemma_parse_decimal(pid);
    text::lemma_parse_decimal(ppid);
    text::lemma_parse_decimal(threads);
    let kb = seq![' ', 'k', 'B'];
    let l0 = status_line(key_names()[0], name);
    let l1 = status_line(key_names()[1], state_code + seq![' '] + state_detail);
    let l2 = status_line(key_names()[2], dp);
    let l3 = status_line(key_names()[3], dq);
    let l4 = status_line(key_names()[5], dt);
    let l5 = status_line(key_names()[4], ram_kb + kb);
    let lines = seq![l0, l1, l2, l3, l4, l5];
    // no line holds a newline
    assert forall|i: int| 0 <= i < lines.len() implies !(#[trigger] lines[i]).contains('\n') by {
        lemma_key_names(0);
        lemma_key_names(1);
        lemma_key_names(2);
        lemma_key_names(3);
        lemma_key_names(4);
        lemma_key_names(5);
        if lines[i].contains('\n') {
            let j = choose|j: int| 0 <= j < lines[i].len() && lines[i][j] == '\n';
            if i == 0 {
                if j >= key_names()[0].len() + 2 {
                    assert(name[j - key_names()[0].len() - 2] == '\n');
                }
            } else if i == 1 {
                let v = state_code + seq![' '] + state_detail;
                if j >= key_names()[1].len() + 2 {
                    let m = j - key_names()[1].len() - 2;
                    assert(v[m] == '\n');
                    if m < state_code.len() {
                        assert(state_code[m] == '\n');
                    } else if m > state_code.len() {
                        assert(state_detail[m - state_code.len() - 1] == '\n');
                    }
                }
            } else if i == 2 {
                if j >= key_names()[2].len() + 2 {
                    assert(text::is_digit(dp[j - key_names()[2].len() - 2]));
                }
            } else if i == 3 {
                if j >= key_names()[3].len() + 2 {
                    assert(text::is_digit(dq[j - key_names()[3].len() - 2]));
                }
            } else if i == 4 {
                if j >= key_names()[5].len() + 2 {
                    assert(text::is_digit(dt[j - key_names()[5].len() - 2]));
                }
            } else {
                if j >= key_names()[4].len() + 2 {
                    let m = j - key_names()[4].len() - 2;
                    if m < ram_kb.len() {
                        assert(text::is_digit(ram_kb[m]));
                    }
                }
            }
        }
    }
    lemma_lines_of_text(lines);
    let stripped = lines.map_values(|l: Seq<char>| strip_cr(l));
    // carriage returns: only the state line may end in one
    assert(strip_cr(l0) == l0) by {
        assert(l0.last() == name.last());
    }
    assert(strip_cr(l2) == l2) by {
        assert(l2.last() == dp.last());
        assert(text::is_digit(dp[dp.len() - 1]));
    }
    assert(strip_cr(l3) == l3) by {
        assert(l3.last() == dq.last());
        assert(text::is_digit(dq[dq.len() - 1]));
    }
    assert(strip_cr(l4) == l4) by {
        assert(l4.last() == dt.last());
        assert(text::is_digit(dt[dt.len() - 1]));
    }
    assert(strip_cr(l5) == l5) by {
        assert(l5.last() == 'B');
    }
    let detail2 = strip_cr(state_detail);
    assert(strip_cr(l1) == status_line(key_names()[1], state_code + seq![' '] + detail2)) by {
        if state_detail.len() > 0 && state_detail.last() == '\r' {
            assert(l1.drop_last() =~= status_line(
                key_names()[1],
                state_code + seq![' '] + state_detail.drop_last(),
            ));
            assert(l1.last() == state_detail.last());
        } else if state_detail.len() > 0 {
            assert(l1.last() == state_detail.last());
        } else {
            assert(l1.last() == ' ');
        }
    }
    let m1 = strip_cr(l1);
    assert(stripped =~= seq![l0, m1, l2, l3, l4, l5]);
    // what each line gives
    lemma_name_line(no_fields(), name);
    let f0 = apply_line(no_fields(), l0);
    lemma_state_line(f0, state_code, detail2);
    let f1 = apply_line(f0, m1);
    lemma_pid_lines(f1, pid);
    let f2 = apply_line(f1, l2);
    lemma_pid_lines(f2, ppid);
    let f3 = apply_line(f2, l3);
    lemma_pid_lines(f3, threads);
    let f4 = apply_line(f3, l4);
    lemma_ram_line(f4, ram_kb);
    let f5 = apply_line(f4, l5);
    // the fields, line by line
    lemma_fields_of_six(l0, m1, l2, l3, l4, l5);
    assert(fields_of_lines(stripped) == f5);
}

} // verus!
