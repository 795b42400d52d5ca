use vstd::prelude::*;
use vstd::slice::slice_to_vec;
use vstd::string::StringExecFns;
use vstd::utf8::{decode_utf8, valid_utf8};

use crate::dfu_util::{
    combined_output, download, download_args, listed_entries, parse_list, DfuListEntry,
    DfuListParsingError, DfuUtilError, DownloadConfig, Output,
};
use crate::text::{decode_lossy, lossy_text};

verus! {

/// Vendor id of the STM32 DFU bootloader.
pub const STM32_BOOTLOADER_VID: u16 = 0x0483;

/// Product id of the STM32 DFU bootloader.
pub const STM32_BOOTLOADER_PID: u16 = 0xdf11;

/// Vendor id of the keyboard while it runs its application.
pub const KEYBOARD_VID: u16 = 0x16c0;

/// Product id of the keyboard while it runs its application.
pub const KEYBOARD_PID: u16 = 0x27db;

/// The alternate setting that the keyboard's firmware is written to.
pub const ALT_SETTING: usize = 0;

/// Where the keyboard's flash memory starts.
pub const DOWNLOAD_ADDRESS: usize = 0x0800_0000;

/// Why flashing did not get to its end.
#[derive(Debug, Clone, PartialEq, Eq)]
pub enum FlashError {
    /// The tool exited with a failure; the text is what it printed.
    CommandFailed(String),
    /// The path of the firmware image, shown lossily, cannot be handed to the tool.
    InvalidPath(String),
    /// The tool could not be run; the text says why.
    IoError(String),
    /// A line of the list could not be read.
    ListParseError(DfuListParsingError),
    /// No bootloader and no keyboard is among the devices.
    NoDevicesFound,
}

/// Whether `entry` is an STM32 DFU bootloader.
pub open spec fn is_bootloader(entry: DfuListEntry) -> bool {
    entry.vid == STM32_BOOTLOADER_VID && entry.pid == STM32_BOOTLOADER_PID
}

/// Whether `entry` is a keyboard that runs its application.
pub open spec fn is_keyboard(entry: DfuListEntry) -> bool {
    entry.vid == KEYBOARD_VID && entry.pid == KEYBOARD_PID
}

/// The bootloaders among `entries`, in the order of the list.
pub open spec fn bootloaders(entries: Seq<DfuListEntry>) -> Seq<DfuListEntry> {
    entries.filter(|entry: DfuListEntry| is_bootloader(entry))
}

/// The keyboards among `entries`, in the order of the list.
pub open spec fn keyboards(entries: Seq<DfuListEntry>) -> Seq<DfuListEntry> {
    entries.filter(|entry: DfuListEntry| is_keyboard(entry))
}

/// The device to work on: the first bootloader of the list where it has one, else its first
/// keyboard, else none.
pub open spec fn selected(entries: Seq<DfuListEntry>) -> Option<DfuListEntry> {
    if bootloaders(entries).len() > 0 {
        Some(bootloaders(entries)[0])
    } else if keyboards(entries).len() > 0 {
        Some(keyboards(entries)[0])
    } else {
        None
    }
}

/// Both streams of a run as one text: standard output, a line feed, standard error, each
/// decoded lossily.
pub open spec fn printed(output: Output) -> Seq<char> {
    lossy_text(output.stdout@) + "\n"@ + lossy_text(output.stderr@)
}

/// The first item of a kind comes first among the items of that kind, and where a sequence
/// holds no item of a kind, nothing is among them.
pub proof fn lemma_first_of_kind<A>(items: Seq<A>, kind: spec_fn(A) -> bool, first: int)
    requires
        0 <= first <= items.len(),
        forall|i: int| 0 <= i < first ==> !kind(#[trigger] items[i]),
        first < items.len() ==> kind(items[first]),
    ensures
        first < items.len() ==> items.filter(kind).len() > 0 && items.filter(kind)[0]
            == items[first],
        first == items.len() ==> items.filter(kind).len() == 0,
    decreases items.len(),
{
    reveal(Seq::filter);
    if items.len() > 0 {
        let front = items.drop_last();
        if first < items.len() - 1 {
            lemma_first_of_kind(front, kind, first);
            assert(front[first] == items[first]);
        } else {
            assert forall|i: int| 0 <= i < front.len() implies !kind(#[trigger] front[i]) by {
                assert(front[i] == items[i]);
            }
            lemma_first_of_kind(front, kind, front.len() as int);
        }
    }
}

/// The first bootloader of a list is selected, whatever else the list holds.
pub proof fn lemma_first_bootloader_is_selected(entries: Seq<DfuListEntry>, at: int)
    requires
        0 <= at < entries.len(),
        is_bootloader(entries[at]),
        forall|i: int| 0 <= i < at ==> !is_bootloader(#[trigger] entries[i]),
    ensures
        selected(entries) == Some(entries[at]),
{
    lemma_first_of_kind(entries, |entry: DfuListEntry| is_bootloader(entry), at);
}

/// The first keyboard of a list without bootloader is selected.
pub proof fn lemma_first_keyboard_is_selected(entries: Seq<DfuListEntry>, at: int)
    requires
        0 <= at < entries.len(),
        is_keyboard(entries[at]),
        forall|i: int| 0 <= i < at ==> !is_keyboard(#[trigger] entries[i]),
        forall|i: int| 0 <= i < entries.len() ==> !is_bootloader(#[trigger] entries[i]),
    ensures
        selected(entries) == Some(entries[at]),
{
    lemma_first_of_kind(entries, |entry: DfuListEntry| is_bootloader(entry), entries.len() as int);
    lemma_first_of_kind(entries, |entry: DfuListEntry| is_keyboard(entry), at);
}

/// A list with one bootloader and no keyboard has that bootloader selected.
pub proof fn lemma_single_bootloader_is_selected(entries: Seq<DfuListEntry>, at: int)
    requires
        0 <= at < entries.len(),
        is_bootloader(entries[at]),
        bootloaders(entries).len() == 1,
        keyboards(entries).len() == 0,
    ensures
        selected(entries) == Some(entries[at]),
{
    lemma_bootloader_is_preferred(entries, at);
}

/// A list without bootloader and without keyboard has nothing selected.
pub proof fn lemma_nothing_to_select(entries: Seq<DfuListEntry>)
    requires
        forall|i: int|
            0 <= i < entries.len() ==> !is_bootloader(#[trigger] entries[i]) && !is_keyboard(
                entries[i],
            ),
    ensures
        selected(entries) is None,
{
    lemma_first_of_kind(entries, |entry: DfuListEntry| is_bootloader(entry), entries.len() as int);
    lemma_first_of_kind(entries, |entry: DfuListEntry| is_keyboard(entry), entries.len() as int);
}

/// A list with one bootloader has it selected, whatever keyboards stand beside it or before
/// it.
pub proof fn lemma_bootloader_is_preferred(entries: Seq<DfuListEntry>, at: int)
    requires
        0 <= at < entries.len(),
        is_bootloader(entries[at]),
        bootloaders(entries).len() == 1,
    ensures
        selected(entries) == Some(entries[at]),
{
    let kind = |entry: DfuListEntry| is_bootloader(entry);
    assert(entries.contains(entries[at]));
    entries.lemma_filter_contains_rev(kind, entries[at]);
    let found = bootloaders(entries);
    let i = found.lemma_contains_to_index(entries[at]);
    assert(found[i] == entries[at]);
}

/// The devices that a run of the tool in list mode reported. A run that failed gives no
/// devices: the error holds what it printed.
pub fn find_devices(output: &Output) -> (entries: Result<Vec<DfuListEntry>, FlashError>)
    ensures
        match entries {
            Ok(found) => output.success && found@ == listed_entries(
                combined_output(output.stdout@, output.stderr@),
            ),
            Err(error) => !output.success && (error matches FlashError::CommandFailed(out) && out@
                == printed(*output)),
        },
{
    if !output.success {
        let mut out = decode_lossy(output.stdout.as_slice());
        out.append("\n");
        out.append(decode_lossy(output.stderr.as_slice()).as_str());
        return Err(FlashError::CommandFailed(out));
    }
    Ok(parse_list(output.stdout.as_slice(), output.stderr.as_slice()))
}

/// The position of the first entry of `entries` with the given ids, or their number where
/// there is none.
fn first_with_ids(entries: &Vec<DfuListEntry>, vid: u16, pid: u16) -> (at: usize)
    ensures
        at <= entries.len(),
        forall|i: int|
            0 <= i < at ==> !(#[trigger] entries[i].vid == vid && entries[i].pid == pid),
        at < entries.len() ==> entries[at as int].vid == vid && entries[at as int].pid == pid,
{
    let mut at: usize = 0;
    while at < entries.len() && !(entries[at].vid == vid && entries[at].pid == pid)
        invariant
            at <= entries.len(),
            forall|i: int|
                0 <= i < at ==> !(#[trigger] entries[i].vid == vid && entries[i].pid == pid),
        decreases entries.len() - at,
    {
        at = at + 1;
    }
    at
}

/// Picks the device to work on: a bootloader rather than a keyboard, and of several the one
/// that the tool listed first.
pub fn find_device(entries: &Vec<DfuListEntry>) -> (device: Result<DfuListEntry, FlashError>)
    ensures
        match device {
            Ok(entry) => selected(entries@) == Some(entry),
            Err(error) => selected(entries@) is None && error is NoDevicesFound,
        },
{
    let bootloader = first_with_ids(entries, STM32_BOOTLOADER_VID, STM32_BOOTLOADER_PID);
    proof {
        lemma_first_of_kind(
            entries@,
            |entry: DfuListEntry| is_bootloader(entry),
            bootloader as int,
        );
    }
    if bootloader < entries.len() {
        return Ok(entries[bootloader]);
    }
    let keyboard = first_with_ids(entries, KEYBOARD_VID, KEYBOARD_PID);
    proof {
        lemma_first_of_kind(entries@, |entry: DfuListEntry| is_keyboard(entry), keyboard as int);
    }
    if keyboard < entries.len() {
        return Ok(entries[keyboard]);
    }
    Err(FlashError::NoDevicesFound)
}

/// The arguments with which the tool writes the keyboard's firmware to device `dev_num` and
/// restarts it. The path of the firmware has to be valid UTF-8 to be handed to the tool.
pub fn dfu_flash(dev_num: usize, firmware: &[u8]) -> (args: Result<Vec<String>, FlashError>)
    ensures
        match args {
            Ok(args) => valid_utf8(firmware@) && args.deep_view() == download_args(
                dev_num as nat,
                ALT_SETTING as nat,
                DOWNLOAD_ADDRESS as nat,
                decode_utf8(firmware@),
                true,
            ),
            Err(error) => !valid_utf8(firmware@) && (error matches FlashError::InvalidPath(path)
                && path@ == lossy_text(firmware@)),
        },
{
    let config = DownloadConfig {
        dev_num,
        alt: ALT_SETTING,
        address: DOWNLOAD_ADDRESS,
        firmware: slice_to_vec(firmware),
        reset: true,
    };
    match download(&config) {
        Ok(args) => Ok(args),
        Err(DfuUtilError::InvalidUtf8(path)) => Err(FlashError::InvalidPath(path)),
        Err(_) => Err(FlashError::InvalidPath(decode_lossy(firmware))),
    }
}

} // verus!
