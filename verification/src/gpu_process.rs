//! Per-process GPU time from the property list that `powermetrics` prints:
//! the tasks under the top-level `tasks` key, with their PID, name and GPU
//! milliseconds per second.

use vstd::prelude::*;
use crate::text::{chars_of, decimal, digit_char, push_str, same_text, string_of, trim_chars, trimmed};

verus! {

/// One event of an XML document, as far as the property list matters.
#[derive(Clone, Debug)]
pub enum XmlItem {
    /// An element opens, with its local name.
    Start(String),
    /// An element closes, with its local name.
    End(String),
    /// Character data or a CDATA section.
    Text(String),
    /// Anything else (declarations, white space between elements, comments).
    Other,
}

/// A task of the sample that has a positive PID and a GPU time. The GPU time
/// is the trimmed text of its `gputime_ms_per_s` value, as a decimal number.
#[derive(Clone, Debug)]
pub struct TaskRecord {
    pub pid: i32,
    pub name: String,
    pub gpu_time: String,
}

/// The value of a run of decimal digits.
pub open spec fn digits_value(s: Seq<char>) -> int
    decreases s.len(),
{
    if s.len() == 0 { 0 } else { digits_value(s.drop_last()) * 10 + (s.last() as int - '0' as int) }
}

/// Every character is an ASCII digit.
pub open spec fn all_digits(s: Seq<char>) -> bool {
    forall|i: int| 0 <= i < s.len() ==> '0' <= #[trigger] s[i] <= '9'
}

/// What `str::parse::<i32>` returns: an optional sign and at least one
/// digit, with a value that fits.
pub open spec fn parsed_i32(s: Seq<char>) -> Option<i32> {
    let negative = s.len() > 0 && s[0] == '-';
    let body = if s.len() > 0 && (s[0] == '-' || s[0] == '+') { s.drop_first() } else { s };
    if body.len() == 0 || !all_digits(body) {
        None
    } else {
        let v = if negative { -digits_value(body) } else { digits_value(body) };
        if i32::MIN <= v <= i32::MAX { Some(v as i32) } else { None }
    }
}

proof fn lemma_digits_nonneg(s: Seq<char>)
    requires
        all_digits(s),
    ensures
        digits_value(s) >= 0,
    decreases s.len(),
{
    if s.len() > 0 {
        assert(all_digits(s.drop_last())) by {
            assert forall|i: int| 0 <= i < s.drop_last().len() implies '0' <= #[trigger] s.drop_last()[i] <= '9' by {
                assert(s.drop_last()[i] == s[i]);
            }
        }
        lemma_digits_nonneg(s.drop_last());
        assert('0' <= s[s.len() - 1] <= '9');
    }
}

/// Parses a decimal `i32` as `str::parse` does (see `parsed_i32`).
pub fn parse_i32(s: &Vec<char>) -> (r: Option<i32>)
    ensures
        r == parsed_i32(s@),
{
    let negative = s.len() > 0 && s[0] == '-';
    let start: usize = if s.len() > 0 && (s[0] == '-' || s[0] == '+') { 1 } else { 0 };
    let ghost body = if s@.len() > 0 && (s@[0] == '-' || s@[0] == '+') { s@.drop_first() } else { s@ };
    assert(body == s@.skip(start as int));
    if s.len() == start {
        return None;
    }
    let cap: i64 = 2147483649;
    let mut value: i64 = 0;
    let mut i = start;
    while i < s.len()
        invariant
            start <= i <= s.len(),
            body == s@.skip(start as int),
            body == (if s@.len() > 0 && (s@[0] == '-' || s@[0] == '+') { s@.drop_first() } else { s@ }),
            negative == (s@.len() > 0 && s@[0] == '-'),
            all_digits(s@.subrange(start as int, i as int)),
            0 <= value <= cap,
            cap == 2147483649,
            value == if digits_value(s@.subrange(start as int, i as int)) < cap {
                digits_value(s@.subrange(start as int, i as int))
            } else {
                cap as int
            },
        decreases s.len() - i,
    {
        let c = s[i];
        if !('0' <= c && c <= '9') {
            proof {
                assert(body[i - start] == c);
                assert(!all_digits(body));
            }
            return None;
        }
        let d = (c as u32 - '0' as u32) as i64;
        let ghost prefix = s@.subrange(start as int, i as int);
        let ghost next = s@.subrange(start as int, i + 1);
        proof {
            assert(next.drop_last() == prefix);
            assert(next.last() == c);
            lemma_digits_nonneg(prefix);
            assert(all_digits(next)) by {
                assert forall|k: int| 0 <= k < next.len() implies '0' <= #[trigger] next[k] <= '9' by {
                    if k < prefix.len() {
                        assert(next[k] == prefix[k]);
                    }
                }
            }
        }
        let grown = value * 10 + d;
        value = if grown < cap { grown } else { cap };
        i = i + 1;
    }
    proof {
        assert(s@.subrange(start as int, s@.len() as int) == body);
        lemma_digits_nonneg(body);
    }
    if negative {
        if value <= 2147483648 { Some((-value) as i32) } else { None }
    } else {
        if value <= 2147483647 { Some(value as i32) } else { None }
    }
}


/// A task being read: the fields seen so far.
pub struct TaskDraft {
    pub pid: Option<i32>,
    pub name: Seq<char>,
    pub gpu_time: Option<Seq<char>>,
}

/// Where the reader stands in the property list.
pub struct ScanState {
    /// The last `<key>` whose value has not been read yet.
    pub pending_key: Seq<char>,
    /// The element whose text is being captured (empty when none).
    pub captured_tag: Seq<char>,
    pub captured_text: Seq<char>,
    pub array_depth: nat,
    pub dictionary_depth: nat,
    /// The depth of the `tasks` array while inside it.
    pub tasks_array_depth: Option<nat>,
    /// The depth of the task dictionary while inside one.
    pub task_dictionary_depth: Option<nat>,
    pub task: Option<TaskDraft>,
    /// The finished tasks: PID, name and GPU time text.
    pub records: Seq<(i32, Seq<char>, Seq<char>)>,
}

/// Nothing read yet.
pub open spec fn initial_scan() -> ScanState {
    ScanState {
        pending_key: Seq::empty(),
        captured_tag: Seq::empty(),
        captured_text: Seq::empty(),
        array_depth: 0,
        dictionary_depth: 0,
        tasks_array_depth: None,
        task_dictionary_depth: None,
        task: None,
        records: Seq::empty(),
    }
}

/// The property-list elements whose text is a value.
pub open spec fn is_value_tag(n: Seq<char>) -> bool {
    n == "integer"@ || n == "real"@ || n == "string"@
}

/// A task after reading the value of `key`.
pub open spec fn with_value(t: TaskDraft, key: Seq<char>, text: Seq<char>) -> TaskDraft {
    if key == "pid"@ {
        TaskDraft { pid: parsed_i32(trimmed(text)), ..t }
    } else if key == "name"@ {
        TaskDraft { name: text, ..t }
    } else if key == "gputime_ms_per_s"@ {
        TaskDraft { gpu_time: Some(trimmed(text)), ..t }
    } else {
        t
    }
}

/// The records after a task dictionary closes: a task with a positive PID
/// and a GPU time is kept.
pub open spec fn with_task(records: Seq<(i32, Seq<char>, Seq<char>)>, task: Option<TaskDraft>) -> Seq<(i32, Seq<char>, Seq<char>)> {
    match task {
        Some(t) => if t.pid is Some && t.gpu_time is Some && t.pid->0 > 0 {
            records.push((t.pid->0, t.name, t.gpu_time->0))
        } else {
            records
        },
        None => records,
    }
}

/// One XML event read: `<array>` after the `tasks` key enters the task list,
/// each `<dict>` directly in it is a task, `<key>` names the next value, and
/// the values of `pid`, `name` and `gputime_ms_per_s` fill the task.
pub open spec fn scan_step(s: ScanState, item: XmlItem) -> ScanState {
    match item {
        XmlItem::Start(name) => {
            let n = name@;
            if n == "array"@ {
                let d = s.array_depth + 1;
                ScanState {
                    array_depth: d,
                    tasks_array_depth: if s.pending_key == "tasks"@ && s.tasks_array_depth is None { Some(d) } else { s.tasks_array_depth },
                    pending_key: Seq::empty(),
                    ..s
                }
            } else if n == "dict"@ {
                let d = s.dictionary_depth + 1;
                let opens = s.tasks_array_depth is Some && s.task_dictionary_depth is None
                    && s.array_depth == s.tasks_array_depth->0;
                ScanState {
                    dictionary_depth: d,
                    task_dictionary_depth: if opens { Some(d) } else { s.task_dictionary_depth },
                    task: if opens { Some(TaskDraft { pid: None, name: Seq::empty(), gpu_time: None }) } else { s.task },
                    ..s
                }
            } else if n == "key"@ || is_value_tag(n) {
                ScanState { captured_tag: n, captured_text: Seq::empty(), ..s }
            } else {
                s
            }
        },
        XmlItem::Text(t) => if s.captured_tag.len() > 0 {
            ScanState { captured_text: s.captured_text + t@, ..s }
        } else {
            s
        },
        XmlItem::End(name) => {
            let n = name@;
            if n == "key"@ {
                ScanState { pending_key: trimmed(s.captured_text), captured_tag: Seq::empty(), captured_text: Seq::empty(), ..s }
            } else if is_value_tag(n) {
                ScanState {
                    task: match s.task {
                        Some(t) => Some(with_value(t, s.pending_key, s.captured_text)),
                        None => None,
                    },
                    pending_key: Seq::empty(),
                    captured_tag: Seq::empty(),
                    captured_text: Seq::empty(),
                    ..s
                }
            } else if n == "dict"@ {
                let closes = s.task_dictionary_depth == Some(s.dictionary_depth);
                ScanState {
                    records: if closes { with_task(s.records, s.task) } else { s.records },
                    task: if closes { None } else { s.task },
                    task_dictionary_depth: if closes { None } else { s.task_dictionary_depth },
                    dictionary_depth: if s.dictionary_depth > 0 { (s.dictionary_depth - 1) as nat } else { 0 },
                    ..s
                }
            } else if n == "array"@ {
                ScanState {
                    tasks_array_depth: if s.tasks_array_depth == Some(s.array_depth) { None } else { s.tasks_array_depth },
                    array_depth: if s.array_depth > 0 { (s.array_depth - 1) as nat } else { 0 },
                    ..s
                }
            } else {
                s
            }
        },
        XmlItem::Other => s,
    }
}

/// The state after reading all of `items`.
pub open spec fn scan_all(items: Seq<XmlItem>) -> ScanState
    decreases items.len(),
{
    if items.len() == 0 { initial_scan() } else { scan_step(scan_all(items.drop_last()), items.last()) }
}

struct Draft {
    pid: Option<i32>,
    name: String,
    gpu_time: Option<String>,
}

impl View for Draft {
    type V = TaskDraft;

    closed spec fn view(&self) -> TaskDraft {
        TaskDraft {
            pid: self.pid,
            name: self.name@,
            gpu_time: match self.gpu_time {
                Some(g) => Some(g@),
                None => None,
            },
        }
    }
}

/// The view of the finished records.
pub open spec fn record_views(records: Seq<TaskRecord>) -> Seq<(i32, Seq<char>, Seq<char>)> {
    records.map_values(|r: TaskRecord| (r.pid, r.name@, r.gpu_time@))
}

struct Scanner {
    pending_key: String,
    captured_tag: String,
    captured_text: String,
    array_depth: usize,
    dictionary_depth: usize,
    tasks_array_depth: Option<usize>,
    task_dictionary_depth: Option<usize>,
    task: Option<Draft>,
    records: Vec<TaskRecord>,
}

impl View for Scanner {
    type V = ScanState;

    closed spec fn view(&self) -> ScanState {
        ScanState {
            pending_key: self.pending_key@,
            captured_tag: self.captured_tag@,
            captured_text: self.captured_text@,
            array_depth: self.array_depth as nat,
            dictionary_depth: self.dictionary_depth as nat,
            tasks_array_depth: match self.tasks_array_depth {
                Some(d) => Some(d as nat),
                None => None,
            },
            task_dictionary_depth: match self.task_dictionary_depth {
                Some(d) => Some(d as nat),
                None => None,
            },
            task: match self.task {
                Some(t) => Some(t@),
                None => None,
            },
            records: record_views(self.records@),
        }
    }
}

fn trimmed_string(s: &String) -> (r: String)
    ensures
        r@ == trimmed(s@),
{
    let chars = chars_of(s.as_str());
    string_of(&trim_chars(&chars))
}

fn is_value_name(n: &str) -> (r: bool)
    ensures
        r == is_value_tag(n@),
{
    same_text(n, "integer") || same_text(n, "real") || same_text(n, "string")
}

impl Scanner {
    fn step(&mut self, item: &XmlItem)
        requires
            old(self).array_depth < usize::MAX,
            old(self).dictionary_depth < usize::MAX,
        ensures
            final(self)@ == scan_step(old(self)@, *item),
            final(self).array_depth <= old(self).array_depth + 1,
            final(self).dictionary_depth <= old(self).dictionary_depth + 1,
    {
        match item {
            XmlItem::Start(name) => {
                if same_text(name.as_str(), "array") {
                    self.array_depth = self.array_depth + 1;
                    if same_text(self.pending_key.as_str(), "tasks") && self.tasks_array_depth.is_none() {
                        self.tasks_array_depth = Some(self.array_depth);
                    }
                    self.pending_key = String::new();
                } else if same_text(name.as_str(), "dict") {
                    self.dictionary_depth = self.dictionary_depth + 1;
                    let opens = match self.tasks_array_depth {
                        Some(d) => self.task_dictionary_depth.is_none() && self.array_depth == d,
                        None => false,
                    };
                    if opens {
                        self.task_dictionary_depth = Some(self.dictionary_depth);
                        self.task = Some(Draft { pid: None, name: String::new(), gpu_time: None });
                    }
                } else if same_text(name.as_str(), "key") || is_value_name(name.as_str()) {
                    self.captured_tag = name.clone();
                    self.captured_text = String::new();
                }
            },
            XmlItem::Text(t) => {
                if !self.captured_tag.as_str().is_empty() {
                    push_str(&mut self.captured_text, t.as_str());
                }
            },
            XmlItem::End(name) => {
                if same_text(name.as_str(), "key") {
                    self.pending_key = trimmed_string(&self.captured_text);
                    self.captured_tag = String::new();
                    self.captured_text = String::new();
                } else if is_value_name(name.as_str()) {
                    let key = self.pending_key.as_str();
                    match &mut self.task {
                        Some(t) => {
                            if same_text(key, "pid") {
                                let text = trimmed_string(&self.captured_text);
                                t.pid = parse_i32(&chars_of(text.as_str()));
                            } else if same_text(key, "name") {
                                t.name = self.captured_text.clone();
                            } else if same_text(key, "gputime_ms_per_s") {
                                t.gpu_time = Some(trimmed_string(&self.captured_text));
                            }
                        },
                        None => {},
                    }
                    self.pending_key = String::new();
                    self.captured_tag = String::new();
                    self.captured_text = String::new();
                } else if same_text(name.as_str(), "dict") {
                    let closes = match self.task_dictionary_depth {
                        Some(d) => d == self.dictionary_depth,
                        None => false,
                    };
                    if closes {
                        let task = self.task.take();
                        match task {
                            Some(t) => {
                                match (t.pid, t.gpu_time) {
                                    (Some(pid), Some(gpu_time)) => {
                                        if pid > 0 {
                                            let ghost before = self.records@;
                                            self.records.push(TaskRecord { pid, name: t.name, gpu_time });
                                            assert(record_views(self.records@) =~= record_views(before).push(
                                                (pid, self.records@.last().name@, self.records@.last().gpu_time@)));
                                        }
                                    },
                                    _ => {},
                                }
                            },
                            None => {},
                        }
                        self.task_dictionary_depth = None;
                    }
                    self.dictionary_depth = if self.dictionary_depth > 0 { self.dictionary_depth - 1 } else { 0 };
                } else if same_text(name.as_str(), "array") {
                    if self.tasks_array_depth == Some(self.array_depth) {
                        self.tasks_array_depth = None;
                    }
                    self.array_depth = if self.array_depth > 0 { self.array_depth - 1 } else { 0 };
                }
            },
            XmlItem::Other => {},
        }
    }
}

/// The tasks of a parsed sample (see `scan_all`).
pub fn task_records(items: &Vec<XmlItem>) -> (records: Vec<TaskRecord>)
    ensures
        record_views(records@) == scan_all(items@).records,
{
    let mut scanner = Scanner {
        pending_key: String::new(),
        captured_tag: String::new(),
        captured_text: String::new(),
        array_depth: 0,
        dictionary_depth: 0,
        tasks_array_depth: None,
        task_dictionary_depth: None,
        task: None,
        records: Vec::new(),
    };
    assert(record_views(scanner.records@) =~= Seq::empty());
    for i in 0..items.len()
        invariant
            scanner@ == scan_all(items@.take(i as int)),
            scanner.array_depth <= i,
            scanner.dictionary_depth <= i,
    {
        assert(items@.take(i + 1).drop_last() == items@.take(i as int));
        scanner.step(&items[i]);
    }
    assert(items@.take(items@.len() as int) == items@);
    scanner.records
}


/// What xml-rs reads from `data`: the events of the document in order, each
/// as an `XmlItem`, or the text of the first error it meets.
pub uninterp spec fn xml_events(data: Seq<u8>) -> Result<Seq<XmlItem>, Seq<char>>;

/// Runs xml-rs's `EventReader` (default configuration) over `data` to the end
/// of the document. Trusted: the result is `xml_events(data)`; every event is
/// converted one for one (start and end tags to their local names, character
/// data and CDATA to text, all else to `Other`), and the first error, rendered
/// with `to_string`, ends the reading.
#[verifier::external_body]
fn read_xml_items(data: &[u8]) -> (r: Result<Vec<XmlItem>, String>)
    ensures
        match r {
            Ok(items) => xml_events(data@) == Ok::<Seq<XmlItem>, Seq<char>>(items@),
            Err(e) => xml_events(data@) == Err::<Seq<XmlItem>, Seq<char>>(e@),
        },
{
    let mut items = Vec::new();
    for event in xml::reader::EventReader::new(std::io::Cursor::new(data)) {
        items.push(match event {
            Ok(xml::reader::XmlEvent::StartElement { name, .. }) => XmlItem::Start(name.local_name),
            Ok(xml::reader::XmlEvent::EndElement { name }) => XmlItem::End(name.local_name),
            Ok(xml::reader::XmlEvent::Characters(text)) => XmlItem::Text(text),
            Ok(xml::reader::XmlEvent::CData(text)) => XmlItem::Text(text),
            Ok(_) => XmlItem::Other,
            Err(error) => return Err(error.to_string()),
        });
    }
    Ok(items)
}

/// Reads one sample of `powermetrics` output: the tasks of the property list
/// if it is well-formed XML, else the parser's error.
pub fn sample_tasks(data: &[u8]) -> (r: Result<Vec<TaskRecord>, String>)
    ensures
        match xml_events(data@) {
            Ok(items) => r is Ok && record_views(r->Ok_0@) == scan_all(items).records,
            Err(e) => r is Err && r->Err_0@ == e,
        },
{
    match read_xml_items(data) {
        Ok(items) => Ok(task_records(&items)),
        Err(e) => Err(e),
    }
}

/// Only tasks with a positive PID are reported: every record of a sample
/// has a PID above zero.
pub proof fn lemma_records_have_pids(items: Seq<XmlItem>)
    ensures
        forall|i: int| 0 <= i < scan_all(items).records.len() ==> #[trigger] scan_all(items).records[i].0 > 0,
    decreases items.len(),
{
    if items.len() > 0 {
        let before = scan_all(items.drop_last());
        lemma_records_have_pids(items.drop_last());
        let after = scan_all(items).records;
        assert forall|i: int| 0 <= i < after.len() implies #[trigger] after[i].0 > 0 by {
            if i < before.records.len() {
                assert(after[i] == before.records[i]);
            }
        }
    }
}

/// The element an item opens, if it opens one.
pub open spec fn opens(item: XmlItem, name: Seq<char>) -> bool {
    item matches XmlItem::Start(n) && n@ == name
}

/// The element an item closes, if it closes one.
pub open spec fn closes(item: XmlItem, name: Seq<char>) -> bool {
    item matches XmlItem::End(n) && n@ == name
}

/// How one event bears on the tasks: the task list is the array opened
/// right after the `tasks` key; a task is a dictionary opened directly in
/// that list; a record is added only when such a dictionary closes (a
/// nested dictionary closing leaves the task as it is), and then it is
/// appended after the earlier ones.
pub proof fn lemma_task_events(s: ScanState, item: XmlItem)
    ensures
        s.tasks_array_depth is None && scan_step(s, item).tasks_array_depth is Some
            ==> opens(item, "array"@) && s.pending_key == "tasks"@,
        s.task is None && scan_step(s, item).task is Some
            ==> opens(item, "dict"@) && s.tasks_array_depth == Some(s.array_depth),
        scan_step(s, item).records != s.records ==> closes(item, "dict"@)
            && s.task_dictionary_depth == Some(s.dictionary_depth) && s.task is Some
            && exists|r: (i32, Seq<char>, Seq<char>)| scan_step(s, item).records == s.records.push(r),
        (s.task_dictionary_depth matches Some(d) && d != s.dictionary_depth && closes(item, "dict"@))
            ==> scan_step(s, item).task == s.task && scan_step(s, item).records == s.records,
{
    reveal_strlit("dict");
    reveal_strlit("key");
    reveal_strlit("integer");
    reveal_strlit("real");
    reveal_strlit("string");
    match item {
        XmlItem::End(n) => {
            if n@ == "dict"@ {
                assert("dict"@.len() == 4 && "key"@.len() == 3 && "integer"@.len() == 7 && "string"@.len() == 6);
                assert("dict"@[0] == 'd' && "real"@[0] == 'r');
                assert(n@ != "real"@);
                assert(n@ != "string"@);
                assert(!is_value_tag(n@));
            }
            if n@ == "dict"@ && s.task_dictionary_depth == Some(s.dictionary_depth) {
                match s.task {
                    Some(t) => {
                        if t.pid is Some && t.gpu_time is Some && t.pid->0 > 0 {
                            let r = (t.pid->0, t.name, t.gpu_time->0);
                            assert(scan_step(s, item).records == s.records.push(r));
                        }
                    },
                    None => {},
                }
            }
        },
        _ => {},
    }
}

/// Records are added in document order: the records after the first `i`
/// events begin the records of the whole document.
pub proof fn lemma_records_in_order(items: Seq<XmlItem>, i: int)
    requires
        0 <= i <= items.len(),
    ensures
        scan_all(items.take(i)).records.is_prefix_of(scan_all(items).records),
    decreases items.len(),
{
    if i == items.len() {
        assert(items.take(i) =~= items);
    } else {
        let rest = items.drop_last();
        assert(rest.take(i) =~= items.take(i));
        lemma_records_in_order(rest, i);
        let before = scan_all(rest);
        lemma_task_events(before, items.last());
        let after = scan_all(items).records;
        if after != before.records {
            let r = choose|r: (i32, Seq<char>, Seq<char>)| after == before.records.push(r);
            assert(after == before.records.push(r));
        }
    }
}

/// Inside a task, `<key>K</key>` followed by a value element
/// (`<integer>`, `<real>` or `<string>`) holding the text `V` sets the
/// task's field named by `K` (surrounding white space ignored): `pid` to
/// `V` parsed as a decimal `i32` after trimming, `name` to `V` as it
/// stands, and `gputime_ms_per_s` to `V` trimmed; any other key leaves
/// the task as it was. Nothing else the reader tracks changes.
pub proof fn lemma_task_field(
    s: ScanState,
    key_open: XmlItem,
    key_text: XmlItem,
    key_close: XmlItem,
    value_open: XmlItem,
    value_text: XmlItem,
    value_close: XmlItem,
    tag: Seq<char>,
    k: Seq<char>,
    v: Seq<char>,
)
    requires
        s.task is Some,
        tag == "integer"@ || tag == "real"@ || tag == "string"@,
        opens(key_open, "key"@),
        key_text matches XmlItem::Text(t) && t@ == k,
        closes(key_close, "key"@),
        opens(value_open, tag),
        value_text matches XmlItem::Text(t) && t@ == v,
        closes(value_close, tag),
    ensures
        ({
            let s1 = scan_step(s, key_open);
            let s2 = scan_step(s1, key_text);
            let s3 = scan_step(s2, key_close);
            let s4 = scan_step(s3, value_open);
            let s5 = scan_step(s4, value_text);
            let after = scan_step(s5, value_close);
            let t = s.task->0;
            let key = trimmed(k);
            &&& key == "pid"@ ==> after.task == Some(TaskDraft { pid: parsed_i32(trimmed(v)), ..t })
            &&& key == "name"@ ==> after.task == Some(TaskDraft { name: v, ..t })
            &&& key == "gputime_ms_per_s"@ ==> after.task == Some(TaskDraft { gpu_time: Some(trimmed(v)), ..t })
            &&& key != "pid"@ && key != "name"@ && key != "gputime_ms_per_s"@ ==> after.task == s.task
            &&& after.records == s.records
            &&& after.array_depth == s.array_depth
            &&& after.dictionary_depth == s.dictionary_depth
            &&& after.tasks_array_depth == s.tasks_array_depth
            &&& after.task_dictionary_depth == s.task_dictionary_depth
        }),
{
    reveal_strlit("key");
    reveal_strlit("integer");
    reveal_strlit("real");
    reveal_strlit("string");
    reveal_strlit("array");
    reveal_strlit("dict");
    assert("key"@.len() == 3 && "array"@.len() == 5 && "dict"@.len() == 4);
    assert("integer"@.len() == 7 && "real"@.len() == 4 && "string"@.len() == 6);
    assert("dict"@[0] == 'd' && "real"@[0] == 'r' && "array"@[0] == 'a');
    assert(tag != "array"@ && tag != "dict"@ && tag != "key"@);
    assert(is_value_tag(tag));
    assert(!is_value_tag("key"@));
    reveal_strlit("pid");
    reveal_strlit("name");
    reveal_strlit("gputime_ms_per_s");
    assert("pid"@.len() == 3 && "name"@.len() == 4 && "gputime_ms_per_s"@.len() == 16);
    let s1 = scan_step(s, key_open);
    assert(s1.captured_tag == "key"@ && s1.captured_text == Seq::<char>::empty());
    let s2 = scan_step(s1, key_text);
    assert(s2.captured_text =~= k);
    let s3 = scan_step(s2, key_close);
    assert(s3.pending_key == trimmed(k));
    let s4 = scan_step(s3, value_open);
    let s5 = scan_step(s4, value_text);
    assert(s5.captured_text =~= v);
}

/// When a task's dictionary closes, the task is recorded, after the earlier
/// records, exactly when it has a positive PID and a GPU time; either way
/// the reader leaves the task.
pub proof fn lemma_task_closes(s: ScanState, item: XmlItem)
    requires
        closes(item, "dict"@),
        s.task_dictionary_depth == Some(s.dictionary_depth),
        s.task is Some,
    ensures
        ({
            let t = s.task->0;
            let after = scan_step(s, item);
            &&& (t.pid matches Some(p) && p > 0 && t.gpu_time is Some)
                ==> after.records == s.records.push((t.pid->0, t.name, t.gpu_time->0))
            &&& !(t.pid matches Some(p) && p > 0 && t.gpu_time is Some) ==> after.records == s.records
            &&& after.task is None
            &&& after.task_dictionary_depth is None
        }),
{
    reveal_strlit("dict");
    reveal_strlit("key");
    reveal_strlit("integer");
    reveal_strlit("real");
    reveal_strlit("string");
    assert("dict"@.len() == 4 && "key"@.len() == 3 && "integer"@.len() == 7 && "string"@.len() == 6);
    assert("dict"@[0] == 'd' && "real"@[0] == 'r');
    assert(!is_value_tag("dict"@));
}

proof fn lemma_decimal_digits(n: nat)
    ensures
        all_digits(decimal(n)),
        digits_value(decimal(n)) == n,
        decimal(n).len() > 0,
        n > 0 ==> decimal(n)[0] != '0',
    decreases n,
{
    let d = n % 10;
    assert(digit_char(d) as int - '0' as int == d && '0' <= digit_char(d) <= '9');
    if n >= 10 {
        lemma_decimal_digits(n / 10);
        let s = decimal(n / 10);
        assert(decimal(n) == s.push(digit_char(d)));
        assert(decimal(n).drop_last() =~= s);
        assert forall|i: int| 0 <= i < decimal(n).len() implies '0' <= #[trigger] decimal(n)[i] <= '9' by {
            if i < s.len() {
                assert(decimal(n)[i] == s[i]);
            }
        }
        assert(decimal(n)[0] == s[0]);
        assert(decimal(n).last() == digit_char(d));
        assert(digits_value(decimal(n)) == digits_value(s) * 10 + d);
        assert((n / 10) * 10 + d == n);
    } else {
        assert(decimal(n) == seq![digit_char(n)]);
        assert(decimal(n).drop_last() =~= Seq::<char>::empty());
        assert(decimal(n).last() == digit_char(n));
        assert(digits_value(Seq::<char>::empty()) == 0);
        assert(digits_value(decimal(n)) == digits_value(decimal(n).drop_last()) * 10 + (digit_char(n) as int - '0' as int));
    }
}

/// A PID printed in decimal reads back as the same PID: the digits that
/// `decimal` writes for any `i32` from zero on parse to that number, and
/// a minus sign before them to its negation.
pub proof fn lemma_decimal_parses_back(n: i32)
    ensures
        n >= 0 ==> parsed_i32(decimal(n as nat)) == Some(n),
        n > i32::MIN && n < 0 ==> parsed_i32(seq!['-'] + decimal((-n) as nat)) == Some(n),
{
    if n >= 0 {
        lemma_decimal_digits(n as nat);
        assert(decimal(n as nat)[0] != '-' && decimal(n as nat)[0] != '+');
    } else if n > i32::MIN {
        let m = (-n) as nat;
        lemma_decimal_digits(m);
        let s = seq!['-'] + decimal(m);
        assert(s.drop_first() =~= decimal(m));
    }
}

} // verus!
