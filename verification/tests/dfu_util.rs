use dfu_flasher::dfu_util::{
    detach, detach_command, download, download_with_progress, list, list_command, parse_list,
    DfuListEntry, DfuListParsingError, DfuProgress, DfuUtilError, Download, DownloadConfig, Output,
};
use dfu_flasher::numbers::IntErrorKind;

fn some(text: &str) -> Option<String> {
    Some(text.to_string())
}

#[test]
fn list_line_gives_entry() {
    let entry = DfuListEntry::from_str("found DFU [1234:abcd] ... devnum=2 ... alt=0");
    assert_eq!(
        entry,
        Ok(DfuListEntry { is_dfu: true, vid: 0x1234, pid: 0xabcd, devnum: 2, alt: 0 })
    );
}

#[test]
fn list_line_of_the_tool_gives_entry() {
    let line = "Found DFU: [0483:df11] ver=2200, devnum=17, cfg=1, intf=0, path=\"1-2\", alt=1, name=\"@Option Bytes  /0x1FFFC000/01*016 e\", serial=\"346B35523431\"";
    assert_eq!(
        line.parse::<DfuListEntry>(),
        Ok(DfuListEntry { is_dfu: true, vid: 0x0483, pid: 0xdf11, devnum: 17, alt: 1 })
    );
    let line = "  Found Runtime: [16c0:27db] ver=0001, devnum=9, cfg=1, intf=2, path=\"1-1\", alt=0, name=\"UNKNOWN\", serial=\"x\"\t";
    assert_eq!(
        line.parse::<DfuListEntry>(),
        Ok(DfuListEntry { is_dfu: false, vid: 0x16c0, pid: 0x27db, devnum: 9, alt: 0 })
    );
}

#[test]
fn parts_may_stand_in_any_order() {
    let entry = DfuListEntry::from_str("alt=3 devnum=4 [00ff:0A0b] found runtime");
    assert_eq!(
        entry,
        Ok(DfuListEntry { is_dfu: false, vid: 0x00ff, pid: 0x0a0b, devnum: 4, alt: 3 })
    );
}

#[test]
fn missing_devnum_is_named() {
    let entry = DfuListEntry::from_str("found DFU [1234:abcd] ... alt=0");
    assert_eq!(
        entry,
        Err(DfuListParsingError::MissingDevNum("found DFU [1234:abcd] ... alt=0".to_string()))
    );
}

#[test]
fn each_missing_part_is_named() {
    assert_eq!(
        DfuListEntry::from_str("[1234:abcd] devnum=2 alt=0"),
        Err(DfuListParsingError::MissingType("[1234:abcd] devnum=2 alt=0".to_string()))
    );
    assert_eq!(
        DfuListEntry::from_str("found DFU devnum=2 alt=0"),
        Err(DfuListParsingError::MissingVidPid("found DFU devnum=2 alt=0".to_string()))
    );
    assert_eq!(
        DfuListEntry::from_str("found DFU [1234:abcd] devnum=2"),
        Err(DfuListParsingError::MissingAlt("found DFU [1234:abcd] devnum=2".to_string()))
    );
    assert_eq!(
        DfuListEntry::from_str("dfu-util 0.11"),
        Err(DfuListParsingError::MissingType("dfu-util 0.11".to_string()))
    );
    assert_eq!(DfuListEntry::from_str(""), Err(DfuListParsingError::MissingType(String::new())));
}

#[test]
fn number_out_of_range_is_invalid() {
    assert_eq!(
        DfuListEntry::from_str("found DFU [12345:abcd] devnum=2 alt=0"),
        Err(DfuListParsingError::InvalidNumber(IntErrorKind::PosOverflow))
    );
    assert_eq!(
        DfuListEntry::from_str("found DFU [1234:abcd] devnum=99999999999999999999999 alt=0"),
        Err(DfuListParsingError::InvalidNumber(IntErrorKind::PosOverflow))
    );
}

#[test]
fn entry_from_captures_checks_each_part() {
    let line = "line";
    assert_eq!(
        DfuListEntry::from_captures(line, some("dfu"), some("0483"), some("DF11"), some("1"), some("0")),
        Ok(DfuListEntry { is_dfu: true, vid: 0x0483, pid: 0xdf11, devnum: 1, alt: 0 })
    );
    assert_eq!(
        DfuListEntry::from_captures(line, some("runtime"), some("1"), some("2"), some("3"), some("4")),
        Ok(DfuListEntry { is_dfu: false, vid: 1, pid: 2, devnum: 3, alt: 4 })
    );
    assert_eq!(
        DfuListEntry::from_captures(line, None, None, None, None, None),
        Err(DfuListParsingError::MissingType("line".to_string()))
    );
    assert_eq!(
        DfuListEntry::from_captures(line, some("dfu"), some("1"), None, None, None),
        Err(DfuListParsingError::MissingVidPid("line".to_string()))
    );
    assert_eq!(
        DfuListEntry::from_captures(line, some("dfu"), some("1"), some("2"), None, None),
        Err(DfuListParsingError::MissingDevNum("line".to_string()))
    );
    assert_eq!(
        DfuListEntry::from_captures(line, some("dfu"), some("1"), some("2"), some("3"), None),
        Err(DfuListParsingError::MissingAlt("line".to_string()))
    );
    assert_eq!(
        DfuListEntry::from_captures(line, some("dfu"), some("1"), some("g"), some(""), some("4")),
        Err(DfuListParsingError::InvalidNumber(IntErrorKind::InvalidDigit))
    );
    assert_eq!(
        DfuListEntry::from_captures(line, some("dfu"), some("1"), some("2"), some(""), some("x")),
        Err(DfuListParsingError::InvalidNumber(IntErrorKind::Empty))
    );
}

#[test]
fn progress_line_gives_progress() {
    let line = "Download  [================         ]  64%        28672 bytes";
    assert_eq!(DfuProgress::from_str(line), Ok(DfuProgress::Download(28672)));
    let line = "Erase  [================         ]  64%        28672 bytes";
    assert_eq!(DfuProgress::from_str(line), Ok(DfuProgress::Erase(28672)));
    let line = "Verify  [================         ]  64%        28672 bytes";
    assert_eq!(DfuProgress::from_str(line), Err(()));
}

#[test]
fn progress_line_is_read_whatever_its_case_and_margin() {
    let line = "\t ERASE    \t[=========================] 100%        45056 bytes  ";
    assert_eq!(line.parse::<DfuProgress>(), Ok(DfuProgress::Erase(45056)));
    assert_eq!(
        "download [ ] 0% 0 bytes".parse::<DfuProgress>(),
        Ok(DfuProgress::Download(0))
    );
}

#[test]
fn other_lines_are_no_progress() {
    assert_eq!(DfuProgress::from_str(""), Err(()));
    assert_eq!(DfuProgress::from_str("Download done."), Err(()));
    assert_eq!(DfuProgress::from_str("Download [===] 64% bytes"), Err(()));
    assert_eq!(DfuProgress::from_str("Download [] 64% 12 bytes"), Err(()));
    assert_eq!(
        DfuProgress::from_str("Download [==] 64% 99999999999999999999999 bytes"),
        Err(())
    );
}

#[test]
fn progress_from_captures_knows_two_stages() {
    assert_eq!(DfuProgress::from_captures(some("erase"), some("12")), Ok(DfuProgress::Erase(12)));
    assert_eq!(
        DfuProgress::from_captures(some("download"), some("+7")),
        Ok(DfuProgress::Download(7))
    );
    assert_eq!(DfuProgress::from_captures(some("Erase"), some("12")), Err(()));
    assert_eq!(DfuProgress::from_captures(some("verify"), some("12")), Err(()));
    assert_eq!(DfuProgress::from_captures(some("erase"), some("12a")), Err(()));
    assert_eq!(DfuProgress::from_captures(None, some("12")), Err(()));
    assert_eq!(DfuProgress::from_captures(some("erase"), None), Err(()));
}

fn output(success: bool, stdout: &str, stderr: &str) -> Output {
    Output { success, stdout: stdout.as_bytes().to_vec(), stderr: stderr.as_bytes().to_vec() }
}

const LISTING: &str = "dfu-util 0.11\n\nCopyright 2005-2009 Weston Schmidt\n\nFound DFU: [0483:df11] ver=2200, devnum=17, cfg=1, intf=0, alt=1, name=\"a\"\r\nFound DFU: [0483:df11] ver=2200, devnum=17, cfg=1, intf=0, alt=0, name=\"b\"\n";

#[test]
fn list_reads_both_streams() {
    let expected = vec![
        DfuListEntry { is_dfu: true, vid: 0x0483, pid: 0xdf11, devnum: 17, alt: 1 },
        DfuListEntry { is_dfu: true, vid: 0x0483, pid: 0xdf11, devnum: 17, alt: 0 },
        DfuListEntry { is_dfu: false, vid: 0x16c0, pid: 0x27db, devnum: 3, alt: 0 },
    ];
    let stderr = "Found Runtime: [16c0:27db] devnum=3, alt=0";
    assert_eq!(list(&output(true, LISTING, stderr)), Ok(expected.clone()));
    assert_eq!(parse_list(LISTING.as_bytes(), stderr.as_bytes()), expected);
    assert_eq!(list(&output(true, "", "")), Ok(vec![]));
}

#[test]
fn list_keeps_the_streams_apart() {
    let found = parse_list(b"found dfu [1:2] devnum=3", b" alt=4");
    assert_eq!(found, vec![]);
}

#[test]
fn list_of_failed_run_is_a_failure() {
    assert_eq!(
        list(&output(false, LISTING, "no access\n")),
        Err(DfuUtilError::ProcessFailed {
            stdout: LISTING.to_string(),
            stderr: "no access\n".to_string()
        })
    );
}

#[test]
fn list_command_is_one_flag() {
    assert_eq!(list_command(), ["--list"]);
}

#[test]
fn detach_command_names_the_device() {
    assert_eq!(detach_command(0), ["--devnum", "0", "--detach"]);
    assert_eq!(detach_command(1234567890), ["--devnum", "1234567890", "--detach"]);
}

#[test]
fn detach_needs_success_and_no_error_text() {
    assert_eq!(detach(&output(true, "", "")), Ok(()));
    assert_eq!(detach(&output(true, "out", "Resetting USB...\n")), Ok(()));
    assert_eq!(
        detach(&output(false, "out", "err")),
        Err(DfuUtilError::ProcessFailed { stdout: "out".to_string(), stderr: "err".to_string() })
    );
}

#[test]
fn detach_error_text_is_a_failure_despite_success() {
    let stderr = "dfu-util: Cannot open\ndfu-util: error detaching\n";
    assert_eq!(
        detach(&output(true, "", stderr)),
        Err(DfuUtilError::ProcessFailed { stdout: String::new(), stderr: stderr.to_string() })
    );
    assert_eq!(detach(&output(true, "dfu-util: error detaching", "dfu-util: error detachin")), Ok(()));
}

#[test]
fn download_arguments() {
    let config = DownloadConfig {
        dev_num: 12,
        alt: 0,
        address: 0x0800_0000,
        firmware: b"/tmp/firmware.bin".to_vec(),
        reset: false,
    };
    assert_eq!(
        download(&config),
        Ok(vec![
            "--devnum".to_string(),
            "12".to_string(),
            "--alt".to_string(),
            "0".to_string(),
            "--dfuse-address".to_string(),
            "0x08000000:leave".to_string(),
            "--download".to_string(),
            "/tmp/firmware.bin".to_string(),
        ])
    );
    let config = DownloadConfig { reset: true, alt: 3, address: 0xabc, ..config };
    assert_eq!(
        download(&config),
        Ok(vec![
            "--devnum".to_string(),
            "12".to_string(),
            "--alt".to_string(),
            "3".to_string(),
            "--dfuse-address".to_string(),
            "0x00000abc:leave".to_string(),
            "--download".to_string(),
            "/tmp/firmware.bin".to_string(),
            "--reset".to_string(),
        ])
    );
}

#[test]
fn download_address_may_take_more_than_eight_digits() {
    let config = DownloadConfig {
        dev_num: 0,
        alt: 0,
        address: 0xffff_ffff,
        firmware: "fw/\u{e9}.bin".as_bytes().to_vec(),
        reset: false,
    };
    let args = download(&config).unwrap();
    assert_eq!(args[5], "0xffffffff:leave");
    assert_eq!(args[7], "fw/\u{e9}.bin");
}

#[test]
fn download_refuses_a_path_that_is_no_text() {
    let config = DownloadConfig {
        dev_num: 1,
        alt: 0,
        address: 0,
        firmware: b"fw\xff.bin".to_vec(),
        reset: true,
    };
    assert_eq!(download(&config), Err(DfuUtilError::InvalidUtf8("fw\u{fffd}.bin".to_string())));
}

const ERASE: &str = "Erase   \t[=========================] 100%        45056 bytes\r";
const DOWNLOAD: &str = "Download\t[============             ]  50%        22528 bytes\r";

#[test]
fn failed_run_still_delivers_its_progress() {
    let stdout = format!("Opening DFU capable USB device...\n{}{}\n", ERASE, DOWNLOAD);
    let run = output(false, &stdout, "dfu-util: Error during download\n");
    let (events, outcome) = download_with_progress(&run);
    assert_eq!(events, [DfuProgress::Erase(45056), DfuProgress::Download(22528)]);
    assert_eq!(
        outcome,
        Err(DfuUtilError::ProcessFailed {
            stdout,
            stderr: "dfu-util: Error during download\n".to_string()
        })
    );
}

#[test]
fn good_run_gives_its_diagnostics() {
    let run = output(true, DOWNLOAD, "dfu-util: Warning\n");
    let (events, outcome) = download_with_progress(&run);
    assert_eq!(events, [DfuProgress::Download(22528)]);
    assert_eq!(outcome, Ok("dfu-util: Warning\n".to_string()));
}

#[test]
fn progress_arrives_as_lines_are_completed() {
    let mut run = Download::new();
    assert_eq!(run.on_stdout(b"Erase    [====] 10%  "), []);
    run.on_stderr(b"warning: ");
    assert_eq!(run.on_stdout(b"  4096 bytes"), []);
    assert_eq!(run.on_stdout(b"\rErase [====] 20% 8192 bytes\rnoise\n"),
        [DfuProgress::Erase(4096), DfuProgress::Erase(8192)]);
    run.on_stderr(b"slow\n");
    assert_eq!(run.on_stdout(b"Download [=] 99% 7 bytes"), []);
    let (events, outcome) = run.finish(true);
    assert_eq!(events, [DfuProgress::Download(7)]);
    assert_eq!(outcome, Ok("warning: slow\n".to_string()));
}

#[test]
fn finish_without_a_pending_line_delivers_nothing() {
    let mut run = Download::new();
    assert_eq!(run.on_stdout(ERASE.as_bytes()), [DfuProgress::Erase(45056)]);
    let (events, outcome) = run.finish(false);
    assert_eq!(events, []);
    assert_eq!(
        outcome,
        Err(DfuUtilError::ProcessFailed { stdout: ERASE.to_string(), stderr: String::new() })
    );
}

#[test]
fn digits_of_other_scripts_are_found_but_not_read() {
    assert_eq!(
        DfuListEntry::from_str("found dfu [1:2] devnum=\u{663} alt=0"),
        Err(DfuListParsingError::InvalidNumber(IntErrorKind::InvalidDigit))
    );
    assert_eq!(DfuProgress::from_str("erase [=] 1% \u{663} bytes"), Err(()));
}

#[test]
fn first_match_of_each_part_counts() {
    assert_eq!(
        DfuListEntry::from_str("found runtime [1:2] devnum=3 alt=4 found dfu [5:6] devnum=7 alt=8"),
        Ok(DfuListEntry { is_dfu: false, vid: 1, pid: 2, devnum: 3, alt: 4 })
    );
    assert_eq!(
        DfuListEntry::from_str("devnum= devnum=5 [zz:1] [a:b] xalt=1 FOUND DFUx"),
        Ok(DfuListEntry { is_dfu: true, vid: 0xa, pid: 0xb, devnum: 5, alt: 1 })
    );
}

#[test]
fn failure_holds_the_line_as_given() {
    assert_eq!(
        DfuListEntry::from_str(" [1234:abcd] devnum=2 alt=0 \t"),
        Err(DfuListParsingError::MissingType(" [1234:abcd] devnum=2 alt=0 \t".to_string()))
    );
    assert_eq!(
        "\tfound DFU [1234:abcd] alt=0\r\n".parse::<DfuListEntry>(),
        Err(DfuListParsingError::MissingDevNum("\tfound DFU [1234:abcd] alt=0\r\n".to_string()))
    );
    assert_eq!(
        DfuListEntry::from_str("  \n"),
        Err(DfuListParsingError::MissingType("  \n".to_string()))
    );
}

#[test]
fn progress_line_needs_no_space_between_its_parts() {
    assert_eq!(
        "Download[====] 64% 28672 bytes".parse::<DfuProgress>(),
        Ok(DfuProgress::Download(28672))
    );
    assert_eq!(
        DfuProgress::from_str("Download[====] 64% 28672 bytes"),
        Ok(DfuProgress::Download(28672))
    );
    assert_eq!(DfuProgress::from_str("Erase [==]64% 512 bytes"), Ok(DfuProgress::Erase(512)));
    assert_eq!(DfuProgress::from_str("erase[==]7%3 bytes"), Ok(DfuProgress::Erase(3)));
    assert_eq!(DfuProgress::from_str("Erase [==] 64% 512bytes"), Err(()));
}

#[test]
fn download_reports_progress_without_spaces() {
    let mut run = Download::new();
    assert_eq!(
        run.on_stdout(b"Erase[=]100%4096 bytes\rDownload[=]50%2048 bytes\r"),
        [DfuProgress::Erase(4096), DfuProgress::Download(2048)]
    );
}
