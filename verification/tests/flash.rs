use dfu_flasher::dfu_util::{DfuListEntry, Output};
use dfu_flasher::flash::{dfu_flash, find_device, find_devices, FlashError};

fn bootloader(devnum: usize) -> DfuListEntry {
    DfuListEntry { is_dfu: true, vid: 0x0483, pid: 0xdf11, devnum, alt: 0 }
}

fn keyboard(devnum: usize) -> DfuListEntry {
    DfuListEntry { is_dfu: false, vid: 0x16c0, pid: 0x27db, devnum, alt: 0 }
}

fn other(devnum: usize) -> DfuListEntry {
    DfuListEntry { is_dfu: true, vid: 0x0483, pid: 0x27db, devnum, alt: 0 }
}

#[test]
fn single_bootloader_is_selected() {
    assert_eq!(find_device(&vec![bootloader(4)]), Ok(bootloader(4)));
    assert_eq!(find_device(&vec![other(1), bootloader(4), other(2)]), Ok(bootloader(4)));
}

#[test]
fn single_keyboard_is_selected() {
    assert_eq!(find_device(&vec![other(1), keyboard(7)]), Ok(keyboard(7)));
}

#[test]
fn no_supported_device_is_an_error() {
    assert_eq!(find_device(&vec![]), Err(FlashError::NoDevicesFound));
    assert_eq!(find_device(&vec![other(1), other(2)]), Err(FlashError::NoDevicesFound));
}

#[test]
fn bootloader_is_preferred_to_keyboard() {
    assert_eq!(find_device(&vec![keyboard(1), bootloader(2)]), Ok(bootloader(2)));
    assert_eq!(find_device(&vec![bootloader(2), keyboard(1)]), Ok(bootloader(2)));
}

#[test]
fn first_listed_of_several_is_selected() {
    assert_eq!(
        find_device(&vec![keyboard(1), bootloader(5), bootloader(3), keyboard(9)]),
        Ok(bootloader(5))
    );
    assert_eq!(find_device(&vec![keyboard(8), other(2), keyboard(6)]), Ok(keyboard(8)));
}

#[test]
fn find_devices_reads_the_list() {
    let output = Output {
        success: true,
        stdout: b"banner\n".to_vec(),
        stderr: b"Found DFU: [0483:df11] devnum=4, alt=0\nFound Runtime: [16c0:27db] devnum=5, alt=0\n"
            .to_vec(),
    };
    let found = find_devices(&output).unwrap();
    assert_eq!(found, vec![bootloader(4), keyboard(5)]);
    assert_eq!(find_device(&found), Ok(bootloader(4)));
}

#[test]
fn find_devices_of_failed_run_holds_what_was_printed() {
    let output = Output {
        success: false,
        stdout: b"Found DFU: [0483:df11] devnum=4, alt=0".to_vec(),
        stderr: b"oops\xfe".to_vec(),
    };
    assert_eq!(
        find_devices(&output),
        Err(FlashError::CommandFailed(
            "Found DFU: [0483:df11] devnum=4, alt=0\noops\u{fffd}".to_string()
        ))
    );
}

#[test]
fn dfu_flash_arguments() {
    assert_eq!(
        dfu_flash(3, b"/tmp/.tmpAbC"),
        Ok(vec![
            "--devnum".to_string(),
            "3".to_string(),
            "--alt".to_string(),
            "0".to_string(),
            "--dfuse-address".to_string(),
            "0x08000000:leave".to_string(),
            "--download".to_string(),
            "/tmp/.tmpAbC".to_string(),
            "--reset".to_string(),
        ])
    );
}

#[test]
fn dfu_flash_refuses_a_path_that_is_no_text() {
    assert_eq!(dfu_flash(3, b"\xc3"), Err(FlashError::InvalidPath("\u{fffd}".to_string())));
}
