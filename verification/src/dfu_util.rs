use vstd::prelude::*;

use vstd::string::StringExecFns;
use vstd::utf8::{decode_utf8, valid_utf8};

use crate::numbers::{
    decimal, digits_of, hex, parse_hex_u16, parse_usize, parsed_number, zero_padded, IntErrorKind,
};
use crate::pattern::{capture, regex_capture};
use crate::progress_lines::{
    after_first_line, complete_lines, decoded, first_line, lemma_line_len, lemma_pending,
    lemma_ready_lines, lemma_split_in_pieces, pending, split_lines, ProgressLines,
};
use crate::text::{
    contains, contains_text, decode_lossy, decode_strict, lossy_text, lowercase_text, same_text,
    to_lowercase, trim, trimmed,
};

verus! {

/// The word that tells a device in DFU mode from one that still runs its application.
pub const TYPE_PATTERN: &'static str = "found (dfu|runtime)";

/// Vendor and product id, in hexadecimal digits between square brackets.
pub const VID_PID_PATTERN: &'static str = r"\[([[:xdigit:]]+):([[:xdigit:]]+)\]";

/// The number by which the tool addresses the device.
pub const DEVNUM_PATTERN: &'static str = r"devnum=(\d+)";

/// The alternate setting.
pub const ALT_PATTERN: &'static str = r"alt=(\d+)";

/// A progress line: the stage, a bar between square brackets, a percentage and a byte count,
/// with or without space between them, and the word `bytes` after a space.
pub const PROGRESS_PATTERN: &'static str =
    r"([[:alpha:]]+)\s*\[[^]]+\]\s*(\d+)%\s*(\d+)\s+bytes";

/// What the tool prints on standard error when a detach did not work, whatever its exit status.
pub const DETACH_ERROR: &'static str = "dfu-util: error detaching";

/// Entry from the output of `dfu-util --list`
#[derive(Debug, Clone, Copy, PartialEq, Eq, Structural)]
pub struct DfuListEntry {
    pub is_dfu: bool,
    pub vid: u16,
    pub pid: u16,
    pub devnum: usize,
    pub alt: usize,
}

/// Why a line is no entry of the list: the part that it lacks, with the line, or a number that
/// could not be read.
#[derive(Debug, Clone, PartialEq, Eq)]
pub enum DfuListParsingError {
    MissingType(String),
    MissingVidPid(String),
    MissingDevNum(String),
    MissingAlt(String),
    InvalidNumber(IntErrorKind),
}

/// A `DfuListParsingError` with its line as mathematical text.
pub enum ListParsingFailure {
    MissingType(Seq<char>),
    MissingVidPid(Seq<char>),
    MissingDevNum(Seq<char>),
    MissingAlt(Seq<char>),
    InvalidNumber(IntErrorKind),
}

impl View for DfuListParsingError {
    type V = ListParsingFailure;

    open spec fn view(&self) -> ListParsingFailure {
        match self {
            DfuListParsingError::MissingType(line) => ListParsingFailure::MissingType(line@),
            DfuListParsingError::MissingVidPid(line) => ListParsingFailure::MissingVidPid(line@),
            DfuListParsingError::MissingDevNum(line) => ListParsingFailure::MissingDevNum(line@),
            DfuListParsingError::MissingAlt(line) => ListParsingFailure::MissingAlt(line@),
            DfuListParsingError::InvalidNumber(kind) => ListParsingFailure::InvalidNumber(*kind),
        }
    }
}

/// Progress stage of dfu-util --download
#[derive(Debug, Clone, Copy, PartialEq, Eq, Structural)]
pub enum DfuProgress {
    Erase(usize),
    Download(usize),
}

/// What one flashing run is to do.
#[derive(Debug, Clone, PartialEq, Eq)]
pub struct DownloadConfig {
    pub dev_num: usize,
    pub alt: usize,
    pub address: usize,
    /// The path of the firmware image, in the bytes by which the system knows it.
    pub firmware: Vec<u8>,
    pub reset: bool,
}

/// What a run of the tool left behind: whether it exited with success, and what it printed.
#[derive(Debug, Clone, PartialEq, Eq)]
pub struct Output {
    pub success: bool,
    pub stdout: Vec<u8>,
    pub stderr: Vec<u8>,
}

/// Why an operation of the tool failed.
#[derive(Debug, Clone, PartialEq, Eq)]
pub enum DfuUtilError {
    /// The tool exited with a failure, or reported one in what it printed.
    ProcessFailed { stdout: String, stderr: String },
    /// A line of the list could not be read.
    ListParsingFailed(DfuListParsingError),
    /// The tool could not be run; the text says why.
    Io(String),
    /// The path of the firmware image, shown lossily, is no valid UTF-8.
    InvalidUtf8(String),
}

/// An optional text as mathematical text.
pub open spec fn text_view(text: Option<String>) -> Option<Seq<char>> {
    match text {
        Some(t) => Some(t@),
        None => None,
    }
}

/// The lower-case form of an optional text.
pub open spec fn lowered(text: Option<Seq<char>>) -> Option<Seq<char>> {
    match text {
        Some(t) => Some(lowercase_text(t)),
        None => None,
    }
}

/// The entry that the parts found in `line` make: the type word in lower case, vendor and
/// product id in hexadecimal digits, device number and alternate setting in decimal digits. The
/// first part that is missing, in this order, names the failure and holds `line`; where all
/// are there, the first number that cannot be read does.
pub open spec fn entry_from_parts(
    line: Seq<char>,
    kind: Option<Seq<char>>,
    vid: Option<Seq<char>>,
    pid: Option<Seq<char>>,
    devnum: Option<Seq<char>>,
    alt: Option<Seq<char>>,
) -> Result<DfuListEntry, ListParsingFailure> {
    if kind is None {
        Err(ListParsingFailure::MissingType(line))
    } else if vid is None || pid is None {
        Err(ListParsingFailure::MissingVidPid(line))
    } else if devnum is None {
        Err(ListParsingFailure::MissingDevNum(line))
    } else if alt is None {
        Err(ListParsingFailure::MissingAlt(line))
    } else {
        match (
            parsed_number(vid->0, 16, 0xffff),
            parsed_number(pid->0, 16, 0xffff),
            parsed_number(devnum->0, 10, usize::MAX as nat),
            parsed_number(alt->0, 10, usize::MAX as nat),
        ) {
            (Err(kind), _, _, _) => Err(ListParsingFailure::InvalidNumber(kind)),
            (Ok(_), Err(kind), _, _) => Err(ListParsingFailure::InvalidNumber(kind)),
            (Ok(_), Ok(_), Err(kind), _) => Err(ListParsingFailure::InvalidNumber(kind)),
            (Ok(_), Ok(_), Ok(_), Err(kind)) => Err(ListParsingFailure::InvalidNumber(kind)),
            (Ok(v), Ok(p), Ok(d), Ok(a)) => Ok(
                DfuListEntry {
                    is_dfu: kind->0 == "dfu"@,
                    vid: v as u16,
                    pid: p as u16,
                    devnum: d as usize,
                    alt: a as usize,
                },
            ),
        }
    }
}

/// What a line of the list gives: the parts are looked for anywhere in the line, once the
/// White_Space around it is gone, each by its own pattern. A failure holds the line as it was
/// given.
pub open spec fn parsed_entry(text: Seq<char>) -> Result<DfuListEntry, ListParsingFailure> {
    let line = trimmed(text);
    entry_from_parts(
        text,
        lowered(regex_capture(TYPE_PATTERN@, true, line, 1)),
        regex_capture(VID_PID_PATTERN@, false, line, 1),
        regex_capture(VID_PID_PATTERN@, false, line, 2),
        regex_capture(DEVNUM_PATTERN@, false, line, 1),
        regex_capture(ALT_PATTERN@, false, line, 1),
    )
}

/// The progress that a stage word in lower case and a byte count in decimal digits make:
/// `erase` and `download` are the stages, any other word gives nothing.
pub open spec fn progress_from_parts(stage: Option<Seq<char>>, bytes: Option<Seq<char>>) -> Option<
    DfuProgress,
> {
    if stage is None || bytes is None {
        None
    } else {
        match parsed_number(bytes->0, 10, usize::MAX as nat) {
            Err(_) => None,
            Ok(count) => if stage->0 == "erase"@ {
                Some(DfuProgress::Erase(count as usize))
            } else if stage->0 == "download"@ {
                Some(DfuProgress::Download(count as usize))
            } else {
                None
            },
        }
    }
}

/// What a line of the download's output gives: a progress where the line, without the
/// White_Space around it, holds a progress report of a known stage.
pub open spec fn parsed_progress(text: Seq<char>) -> Option<DfuProgress> {
    let line = trimmed(text);
    progress_from_parts(
        lowered(regex_capture(PROGRESS_PATTERN@, false, line, 1)),
        regex_capture(PROGRESS_PATTERN@, false, line, 3),
    )
}

impl DfuListEntry {
    /// Makes the entry of the parts found in `line`.
    pub fn from_captures(
        line: &str,
        kind: Option<String>,
        vid: Option<String>,
        pid: Option<String>,
        devnum: Option<String>,
        alt: Option<String>,
    ) -> (entry: Result<Self, DfuListParsingError>)
        ensures
            match entry {
                Ok(e) => entry_from_parts(
                    line@,
                    text_view(kind),
                    text_view(vid),
                    text_view(pid),
                    text_view(devnum),
                    text_view(alt),
                ) == Ok::<DfuListEntry, ListParsingFailure>(e),
                Err(e) => entry_from_parts(
                    line@,
                    text_view(kind),
                    text_view(vid),
                    text_view(pid),
                    text_view(devnum),
                    text_view(alt),
                ) == Err::<DfuListEntry, ListParsingFailure>(e@),
            },
    {
        let kind = match kind {
            Some(kind) => kind,
            None => return Err(DfuListParsingError::MissingType(line.to_owned())),
        };
        let (vid, pid) = match (vid, pid) {
            (Some(vid), Some(pid)) => (vid, pid),
            _ => return Err(DfuListParsingError::MissingVidPid(line.to_owned())),
        };
        let devnum = match devnum {
            Some(devnum) => devnum,
            None => return Err(DfuListParsingError::MissingDevNum(line.to_owned())),
        };
        let alt = match alt {
            Some(alt) => alt,
            None => return Err(DfuListParsingError::MissingAlt(line.to_owned())),
        };
        let vid = match parse_hex_u16(vid.as_str()) {
            Ok(vid) => vid,
            Err(kind) => return Err(DfuListParsingError::InvalidNumber(kind)),
        };
        let pid = match parse_hex_u16(pid.as_str()) {
            Ok(pid) => pid,
            Err(kind) => return Err(DfuListParsingError::InvalidNumber(kind)),
        };
        let devnum = match parse_usize(devnum.as_str()) {
            Ok(devnum) => devnum,
            Err(kind) => return Err(DfuListParsingError::InvalidNumber(kind)),
        };
        let alt = match parse_usize(alt.as_str()) {
            Ok(alt) => alt,
            Err(kind) => return Err(DfuListParsingError::InvalidNumber(kind)),
        };
        Ok(DfuListEntry { is_dfu: same_text(kind.as_str(), "dfu"), vid, pid, devnum, alt })
    }

    /// Reads one line of the list.
    pub fn from_str(s: &str) -> (entry: Result<Self, DfuListParsingError>)
        ensures
            match entry {
                Ok(e) => parsed_entry(s@) == Ok::<DfuListEntry, ListParsingFailure>(e),
                Err(e) => parsed_entry(s@) == Err::<DfuListEntry, ListParsingFailure>(e@),
            },
    {
        let line = trim(s);
        let kind = match capture(TYPE_PATTERN, true, line.as_str(), 1) {
            Some(kind) => Some(to_lowercase(kind.as_str())),
            None => None,
        };
        let vid = capture(VID_PID_PATTERN, false, line.as_str(), 1);
        let pid = capture(VID_PID_PATTERN, false, line.as_str(), 2);
        let devnum = capture(DEVNUM_PATTERN, false, line.as_str(), 1);
        let alt = capture(ALT_PATTERN, false, line.as_str(), 1);
        DfuListEntry::from_captures(s, kind, vid, pid, devnum, alt)
    }
}

impl std::str::FromStr for DfuListEntry {
    type Err = DfuListParsingError;

    /// Reads one line of the list, as `DfuListEntry::from_str` does.
    fn from_str(s: &str) -> (entry: Result<Self, Self::Err>)
        ensures
            match entry {
                Ok(e) => parsed_entry(s@) == Ok::<DfuListEntry, ListParsingFailure>(e),
                Err(e) => parsed_entry(s@) == Err::<DfuListEntry, ListParsingFailure>(e@),
            },
    {
        DfuListEntry::from_str(s)
    }
}

impl DfuProgress {
    /// Makes the progress of a stage word in lower case and a byte count.
    pub fn from_captures(stage: Option<String>, bytes: Option<String>) -> (progress: Result<
        Self,
        (),
    >)
        ensures
            match progress {
                Ok(p) => progress_from_parts(text_view(stage), text_view(bytes)) == Some(p),
                Err(_) => progress_from_parts(text_view(stage), text_view(bytes)) is None,
            },
    {
        let (stage, bytes) = match (stage, bytes) {
            (Some(stage), Some(bytes)) => (stage, bytes),
            _ => return Err(()),
        };
        let count = match parse_usize(bytes.as_str()) {
            Ok(count) => count,
            Err(_) => return Err(()),
        };
        if same_text(stage.as_str(), "erase") {
            Ok(DfuProgress::Erase(count))
        } else if same_text(stage.as_str(), "download") {
            Ok(DfuProgress::Download(count))
        } else {
            Err(())
        }
    }

    /// Reads one line of the download's output.
    pub fn from_str(s: &str) -> (progress: Result<Self, ()>)
        ensures
            match progress {
                Ok(p) => parsed_progress(s@) == Some(p),
                Err(_) => parsed_progress(s@) is None,
            },
    {
        let line = trim(s);
        let stage = match capture(PROGRESS_PATTERN, false, line.as_str(), 1) {
            Some(stage) => Some(to_lowercase(stage.as_str())),
            None => None,
        };
        let bytes = capture(PROGRESS_PATTERN, false, line.as_str(), 3);
        DfuProgress::from_captures(stage, bytes)
    }
}

impl std::str::FromStr for DfuProgress {
    type Err = ();

    /// Reads one line of the download's output, as `DfuProgress::from_str` does.
    fn from_str(s: &str) -> (progress: Result<Self, Self::Err>)
        ensures
            match progress {
                Ok(p) => parsed_progress(s@) == Some(p),
                Err(_) => parsed_progress(s@) is None,
            },
    {
        DfuProgress::from_str(s)
    }
}

/// Whether `error` reports a failed run that printed `stdout` and `stderr`, with each of the
/// two decoded lossily.
pub open spec fn reports_streams(error: DfuUtilError, stdout: Seq<u8>, stderr: Seq<u8>) -> bool {
    error matches DfuUtilError::ProcessFailed { stdout: out, stderr: err } && out@ == lossy_text(
        stdout,
    ) && err@ == lossy_text(stderr)
}

/// Whether `error` reports the failed run `output`.
pub open spec fn reports_failure(error: DfuUtilError, output: Output) -> bool {
    reports_streams(error, output.stdout@, output.stderr@)
}

/// Standard output and standard error as one stream, a line feed between them.
pub open spec fn combined_output(stdout: Seq<u8>, stderr: Seq<u8>) -> Seq<u8> {
    stdout + seq![0x0au8] + stderr
}

/// The entry that a line gives, where it gives one.
pub open spec fn entry_of(text: Seq<char>) -> Option<DfuListEntry> {
    match parsed_entry(text) {
        Ok(entry) => Some(entry),
        Err(_) => None,
    }
}

/// The entries among `texts`, in order; lines that are no entry are passed over.
pub open spec fn entries_among(texts: Seq<Seq<char>>) -> Seq<DfuListEntry> {
    texts.filter_map(|text: Seq<char>| entry_of(text))
}

/// The entries that the tool listed in `output`, each line of it decoded lossily.
pub open spec fn listed_entries(output: Seq<u8>) -> Seq<DfuListEntry> {
    entries_among(decoded(split_lines(output)))
}

/// The progress reports among `texts`, in order; other lines are passed over.
pub open spec fn progress_among(texts: Seq<Seq<char>>) -> Seq<DfuProgress> {
    texts.filter_map(|text: Seq<char>| parsed_progress(text))
}

/// The progress reports in the lines `lines`, each decoded lossily.
pub open spec fn progress_events(lines: Seq<Seq<u8>>) -> Seq<DfuProgress> {
    progress_among(decoded(lines))
}

/// The arguments that list the devices.
pub open spec fn list_args() -> Seq<Seq<char>> {
    seq!["--list"@]
}

/// The arguments that detach device `dev_num`.
pub open spec fn detach_args(dev_num: nat) -> Seq<Seq<char>> {
    seq!["--devnum"@, digits_of(dev_num, 10), "--detach"@]
}

/// The address argument of a download: eight hexadecimal digits at least, and the request to
/// leave DFU mode when done.
pub open spec fn dfuse_address(address: nat) -> Seq<char> {
    "0x"@ + zero_padded(digits_of(address, 16), 8) + ":leave"@
}

/// The arguments of a download.
pub open spec fn download_args(
    dev_num: nat,
    alt: nat,
    address: nat,
    firmware: Seq<char>,
    reset: bool,
) -> Seq<Seq<char>> {
    let fixed = seq![
        "--devnum"@,
        digits_of(dev_num, 10),
        "--alt"@,
        digits_of(alt, 10),
        "--dfuse-address"@,
        dfuse_address(address),
        "--download"@,
        firmware,
    ];
    if reset {
        fixed.push("--reset"@)
    } else {
        fixed
    }
}

/// Picking out of two sequences one after the other is picking out of each.
pub proof fn lemma_filter_map_concat<A, B>(front: Seq<A>, back: Seq<A>, f: spec_fn(A) -> Option<B>)
    ensures
        (front + back).filter_map(f) == front.filter_map(f) + back.filter_map(f),
    decreases back.len(),
{
    if back.len() == 0 {
        assert(front + back == front);
        assert(back.filter_map(f) == Seq::<B>::empty());
        assert(front.filter_map(f) + Seq::<B>::empty() == front.filter_map(f));
    } else {
        let whole = front + back;
        assert(whole.drop_last() == front + back.drop_last());
        assert(whole.last() == back.last());
        lemma_filter_map_concat(front, back.drop_last(), f);
        match f(back.last()) {
            Some(b) => {
                assert(front.filter_map(f) + (back.drop_last().filter_map(f) + seq![b]) == (
                front.filter_map(f) + back.drop_last().filter_map(f)) + seq![b]);
            },
            None => {},
        }
    }
}

/// The reports of some lines that follow others add to the reports of those.
pub proof fn lemma_progress_events_concat(front: Seq<Seq<u8>>, back: Seq<Seq<u8>>)
    ensures
        progress_events(front + back) == progress_events(front) + progress_events(back),
{
    assert(decoded(front + back) == decoded(front) + decoded(back));
    lemma_filter_map_concat(
        decoded(front),
        decoded(back),
        |text: Seq<char>| parsed_progress(text),
    );
}

/// The report of a single line.
pub proof fn lemma_progress_events_one(line: Seq<u8>)
    ensures
        progress_events(seq![line]) == match parsed_progress(lossy_text(line)) {
            Some(progress) => seq![progress],
            None => Seq::<DfuProgress>::empty(),
        },
        progress_events(Seq::<Seq<u8>>::empty()) == Seq::<DfuProgress>::empty(),
{
    let texts = decoded(seq![line]);
    assert(texts.drop_last() == Seq::<Seq<char>>::empty());
    assert(texts.last() == lossy_text(line));
    assert(progress_among(Seq::<Seq<char>>::empty()) == Seq::<DfuProgress>::empty());
    assert(decoded(Seq::<Seq<u8>>::empty()) == Seq::<Seq<char>>::empty());
    match parsed_progress(lossy_text(line)) {
        Some(progress) => {
            assert(Seq::<DfuProgress>::empty() + seq![progress] == seq![progress]);
        },
        None => {},
    }
}

/// The entries that the tool listed, out of what it printed on its two streams.
pub fn parse_list(stdout: &[u8], stderr: &[u8]) -> (entries: Vec<DfuListEntry>)
    ensures
        entries@ == listed_entries(combined_output(stdout@, stderr@)),
{
    let mut combined: Vec<u8> = Vec::new();
    combined.extend_from_slice(stdout);
    combined.push(0x0a);
    combined.extend_from_slice(stderr);
    assert(combined@ == combined_output(stdout@, stderr@));
    let lines = ProgressLines::new(combined.as_slice()).collect();
    let ghost texts = decoded(split_lines(combined@));
    let ghost pick = |text: Seq<char>| entry_of(text);
    let mut entries: Vec<DfuListEntry> = Vec::new();
    let mut i: usize = 0;
    while i < lines.len()
        invariant
            i <= lines.len(),
            lines.deep_view() == texts,
            pick == |text: Seq<char>| entry_of(text),
            entries@ == texts.take(i as int).filter_map(pick),
        decreases lines.len() - i,
    {
        assert(lines[i as int]@ == texts[i as int]) by {
            assert(lines.deep_view()[i as int] == lines[i as int].deep_view());
        }
        proof {
            texts.lemma_filter_map_take_succ(pick, i as int);
        }
        match DfuListEntry::from_str(lines[i].as_str()) {
            Ok(entry) => {
                entries.push(entry);
                assert(entries@ == texts.take(i as int).filter_map(pick) + seq![entry]);
            },
            Err(_) => {
                assert(texts.take(i as int).filter_map(pick) + Seq::<DfuListEntry>::empty()
                    == texts.take(i as int).filter_map(pick));
            },
        }
        i = i + 1;
    }
    assert(texts.take(lines.len() as int) == texts);
    entries
}

/// The failure that reports the run `output`.
fn process_failed(output: &Output) -> (error: DfuUtilError)
    ensures
        reports_failure(error, *output),
{
    DfuUtilError::ProcessFailed {
        stdout: decode_lossy(output.stdout.as_slice()),
        stderr: decode_lossy(output.stderr.as_slice()),
    }
}

/// The arguments with which the tool lists the devices.
pub fn list_command() -> (args: Vec<String>)
    ensures
        args.deep_view() == list_args(),
{
    let mut args: Vec<String> = Vec::new();
    args.push("--list".to_owned());
    assert(args.deep_view() == list_args());
    args
}

/// The devices that a run of the tool in list mode reported. A run that failed gives no
/// devices, whatever it printed.
pub fn list(output: &Output) -> (entries: Result<Vec<DfuListEntry>, DfuUtilError>)
    ensures
        match entries {
            Ok(found) => output.success && found@ == listed_entries(
                combined_output(output.stdout@, output.stderr@),
            ),
            Err(error) => !output.success && reports_failure(error, *output),
        },
{
    if !output.success {
        return Err(process_failed(output));
    }
    Ok(parse_list(output.stdout.as_slice(), output.stderr.as_slice()))
}

/// The arguments with which the tool detaches device `dev_num`.
pub fn detach_command(dev_num: usize) -> (args: Vec<String>)
    ensures
        args.deep_view() == detach_args(dev_num as nat),
{
    let mut args: Vec<String> = Vec::new();
    args.push("--devnum".to_owned());
    args.push(decimal(dev_num));
    args.push("--detach".to_owned());
    assert(args.deep_view() == detach_args(dev_num as nat));
    args
}

/// Whether a run of the tool in detach mode did detach the device: it has to exit with
/// success, and may not have printed the detach error on standard error.
pub fn detach(output: &Output) -> (done: Result<(), DfuUtilError>)
    ensures
        done is Ok <==> output.success && !contains_text(
            lossy_text(output.stderr@),
            DETACH_ERROR@,
        ),
        done matches Err(error) ==> reports_failure(error, *output),
{
    let stderr = decode_lossy(output.stderr.as_slice());
    if output.success && !contains(stderr.as_str(), DETACH_ERROR) {
        Ok(())
    } else {
        Err(process_failed(output))
    }
}

/// The arguments with which the tool downloads the firmware to the device. The path of the
/// firmware has to be valid UTF-8 to be handed to the tool.
pub fn download(config: &DownloadConfig) -> (args: Result<Vec<String>, DfuUtilError>)
    ensures
        match args {
            Ok(args) => valid_utf8(config.firmware@) && args.deep_view() == download_args(
                config.dev_num as nat,
                config.alt as nat,
                config.address as nat,
                decode_utf8(config.firmware@),
                config.reset,
            ),
            Err(error) => !valid_utf8(config.firmware@) && (error matches DfuUtilError::InvalidUtf8(
                path,
            ) && path@ == lossy_text(config.firmware@)),
        },
{
    let firmware = match decode_strict(config.firmware.as_slice()) {
        Some(firmware) => firmware,
        None => return Err(DfuUtilError::InvalidUtf8(decode_lossy(config.firmware.as_slice()))),
    };
    let mut address = "0x".to_owned();
    address.append(hex(config.address, 8).as_str());
    address.append(":leave");
    let mut args: Vec<String> = Vec::new();
    args.push("--devnum".to_owned());
    args.push(decimal(config.dev_num));
    args.push("--alt".to_owned());
    args.push(decimal(config.alt));
    args.push("--dfuse-address".to_owned());
    args.push(address);
    args.push("--download".to_owned());
    args.push(firmware);
    if config.reset {
        args.push("--reset".to_owned());
    }
    assert(args.deep_view() == download_args(
        config.dev_num as nat,
        config.alt as nat,
        config.address as nat,
        decode_utf8(config.firmware@),
        config.reset,
    ));
    Ok(args)
}

/// A download while it runs, as seen through what the tool prints: the progress reports are
/// handed out as the lines that hold them are complete, and both streams are kept for the end.
pub struct Download {
    lines: ProgressLines,
    stdout: Vec<u8>,
    stderr: Vec<u8>,
}

impl Download {
    /// All that has come from standard output.
    pub closed spec fn stdout(&self) -> Seq<u8> {
        self.stdout@
    }

    /// All that has come from standard error.
    pub closed spec fn stderr(&self) -> Seq<u8> {
        self.stderr@
    }

    /// Every complete line of standard output has been looked at, and what is left is the line
    /// that nothing has ended yet.
    pub closed spec fn wf(&self) -> bool {
        self.lines.remaining() == pending(self.stdout@) && !self.lines.closed()
    }

    /// The progress reports handed out so far: those of the complete lines.
    pub open spec fn delivered(&self) -> Seq<DfuProgress> {
        progress_events(complete_lines(self.stdout()))
    }

    /// A download of which nothing has been seen yet.
    pub fn new() -> (download: Self)
        ensures
            download.wf(),
            download.stdout() == Seq::<u8>::empty(),
            download.stderr() == Seq::<u8>::empty(),
    {
        assert(pending(Seq::<u8>::empty()) == Seq::<u8>::empty());
        Download { lines: ProgressLines::open(), stdout: Vec::new(), stderr: Vec::new() }
    }

    /// Takes in what the tool printed next on standard output, and hands out the progress
    /// reports of the lines that this completes, in the order of the lines.
    pub fn on_stdout(&mut self, bytes: &[u8]) -> (events: Vec<DfuProgress>)
        requires
            old(self).wf(),
        ensures
            final(self).wf(),
            final(self).stdout() == old(self).stdout() + bytes@,
            final(self).stderr() == old(self).stderr(),
            events@ == progress_events(complete_lines(pending(old(self).stdout()) + bytes@)),
            final(self).delivered() == old(self).delivered() + events@,
    {
        let ghost fresh = pending(self.stdout@) + bytes@;
        self.stdout.extend_from_slice(bytes);
        self.lines.feed(bytes);
        let mut events: Vec<DfuProgress> = Vec::new();
        proof {
            lemma_split_in_pieces(old(self).stdout@, bytes@);
            assert(self.stdout@ == old(self).stdout@ + bytes@);
            assert(self.lines.remaining() == fresh);
            lemma_progress_events_concat(complete_lines(old(self).stdout@), complete_lines(fresh));
            assert(Seq::<DfuProgress>::empty() + progress_events(complete_lines(fresh))
                == progress_events(complete_lines(fresh)));
        }
        loop
            invariant
                !self.lines.closed(),
                self.stdout@ == old(self).stdout@ + bytes@,
                self.stderr@ == old(self).stderr@,
                pending(self.lines.remaining()) == pending(fresh),
                pending(fresh) == pending(self.stdout@),
                events@ + progress_events(complete_lines(self.lines.remaining()))
                    == progress_events(complete_lines(fresh)),
            ensures
                self.wf(),
                self.stdout@ == old(self).stdout@ + bytes@,
                self.stderr@ == old(self).stderr@,
                events@ == progress_events(complete_lines(fresh)),
            decreases self.lines.remaining().len(),
        {
            let ghost rest = self.lines.remaining();
            let ghost seen = events@;
            proof {
                lemma_ready_lines(rest, false);
                lemma_line_len(rest);
                lemma_progress_events_one(first_line(rest));
                lemma_progress_events_concat(
                    seq![first_line(rest)],
                    complete_lines(after_first_line(rest)),
                );
            }
            match self.lines.next() {
                Some(line) => {
                    let ghost after = progress_events(
                        complete_lines(after_first_line(rest)),
                    );
                    match DfuProgress::from_str(line.as_str()) {
                        Ok(progress) => {
                            events.push(progress);
                            assert(seen.push(progress) + after == seen + (seq![progress] + after));
                        },
                        Err(_) => {
                            assert(seen + (Seq::<DfuProgress>::empty() + after) == seen + after);
                        },
                    }
                },
                None => {
                    proof {
                        lemma_progress_events_one(Seq::<u8>::empty());
                        assert(events@ + Seq::<DfuProgress>::empty() == events@);
                        assert(pending(rest) == rest);
                    }
                    break ;
                },
            }
        }
        events
    }

    /// Takes in what the tool printed next on standard error, which is kept as it is.
    pub fn on_stderr(&mut self, bytes: &[u8])
        requires
            old(self).wf(),
        ensures
            final(self).wf(),
            final(self).stdout() == old(self).stdout(),
            final(self).stderr() == old(self).stderr() + bytes@,
    {
        self.stderr.extend_from_slice(bytes);
    }

    /// Ends the download once the tool has exited: hands out the progress report of a last line
    /// that nothing ended, and the outcome. A tool that exited with success gives what it
    /// printed on standard error, decoded lossily; one that failed gives both streams.
    pub fn finish(self, success: bool) -> (end: (Vec<DfuProgress>, Result<String, DfuUtilError>))
        requires
            self.wf(),
        ensures
            self.delivered() + end.0@ == progress_events(split_lines(self.stdout())),
            end.0@ == if pending(self.stdout()).len() > 0 {
                progress_events(seq![pending(self.stdout())])
            } else {
                Seq::<DfuProgress>::empty()
            },
            match end.1 {
                Ok(diagnostics) => success && diagnostics@ == lossy_text(self.stderr()),
                Err(error) => !success && reports_streams(error, self.stdout(), self.stderr()),
            },
    {
        let mut lines = self.lines;
        lines.close();
        let mut events: Vec<DfuProgress> = Vec::new();
        proof {
            let rest = pending(self.stdout@);
            lemma_pending(self.stdout@);
            lemma_line_len(rest);
            lemma_progress_events_one(rest);
            lemma_progress_events_concat(complete_lines(self.stdout@), seq![rest]);
            assert(complete_lines(self.stdout@) + seq![rest] == complete_lines(self.stdout@).push(
                rest,
            ));
            assert(first_line(rest) == rest);
            assert(self.delivered() + Seq::<DfuProgress>::empty() == self.delivered());
        }
        match lines.next() {
            Some(line) => {
                match DfuProgress::from_str(line.as_str()) {
                    Ok(progress) => {
                        events.push(progress);
                        assert(events@ == seq![progress]);
                    },
                    Err(_) => {},
                }
            },
            None => {},
        }
        let output = Output { success, stdout: self.stdout, stderr: self.stderr };
        let outcome = if success {
            Ok(decode_lossy(output.stderr.as_slice()))
        } else {
            Err(process_failed(&output))
        };
        (events, outcome)
    }
}

/// A whole download at once, from what the tool printed and how it exited: the progress
/// reports of its standard output, in the order of its lines, and the outcome. The reports
/// are the same whether the run failed or not.
pub fn download_with_progress(output: &Output) -> (end: (
    Vec<DfuProgress>,
    Result<String, DfuUtilError>,
))
    ensures
        end.0@ == progress_events(split_lines(output.stdout@)),
        match end.1 {
            Ok(diagnostics) => output.success && diagnostics@ == lossy_text(output.stderr@),
            Err(error) => !output.success && reports_failure(error, *output),
        },
{
    let mut download = Download::new();
    let mut events = download.on_stdout(output.stdout.as_slice());
    download.on_stderr(output.stderr.as_slice());
    assert(download.stdout() == output.stdout@) by {
        assert(Seq::<u8>::empty() + output.stdout@ == output.stdout@);
    }
    assert(download.stderr() == output.stderr@) by {
        assert(Seq::<u8>::empty() + output.stderr@ == output.stderr@);
    }
    proof {
        lemma_progress_events_one(Seq::<u8>::empty());
        assert(complete_lines(Seq::<u8>::empty()) == Seq::<Seq<u8>>::empty());
        assert(Seq::<DfuProgress>::empty() + events@ == events@);
    }
    let (mut last, outcome) = download.finish(output.success);
    events.append(&mut last);
    (events, outcome)
}

} // verus!
