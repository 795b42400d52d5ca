use vstd::prelude::*;

verus! {

/// Vendor id of the STM32 DFU bootloader.
pub const STM32_BOOTLOADER_VID: u16 = 0x0483;

/// Product id of the STM32 DFU bootloader.
pub const STM32_BOOTLOADER_PID: u16 = 0xdf11;

/// Who provides the driver.
pub const VENDOR: &'static str = "inscrib.io";

/// Where the driver is unpacked.
pub const DRIVER_PATH: &'static str = "C:\\usb_driver";

/// The name of the driver's setup information file.
pub const INF_NAME: &'static str = "STM32BootloaderWinUSB.inf";

/// Why a driver installation did not take place.
#[derive(Debug, Clone, PartialEq, Eq)]
pub enum InstallError {
    /// Installation has already been started and is ongoing
    Ongoing,
    /// Input/output error
    Io(String),
}

/// A USB device as the driver installer sees it.
#[derive(Debug, Clone, Copy, PartialEq, Eq, Structural)]
pub struct Device {
    pub vid: u16,
    pub pid: u16,
    /// Whether the WinUSB driver is bound to the device already.
    pub has_winusb: bool,
}

/// What the driver installer is to install.
#[derive(Debug, Clone, PartialEq, Eq)]
pub struct InstallConfig {
    pub vendor: String,
    pub driver_path: String,
    pub inf_name: String,
}

/// Whether `dev` is a bootloader that the driver is not bound to yet.
pub open spec fn wants_driver(dev: Device) -> bool {
    dev.vid == STM32_BOOTLOADER_VID && dev.pid == STM32_BOOTLOADER_PID && !dev.has_winusb
}

/// Tells whether the driver has to be installed for `dev`.
pub fn needs_install(dev: &Device) -> (needed: bool)
    ensures
        needed == wants_driver(*dev),
{
    dev.vid == STM32_BOOTLOADER_VID && dev.pid == STM32_BOOTLOADER_PID && !dev.has_winusb
}

/// The devices among `devices` for which the driver has to be installed, in their order.
pub fn winusb_candidates(devices: &Vec<Device>) -> (candidates: Vec<Device>)
    ensures
        candidates@ == devices@.filter(|dev: Device| wants_driver(dev)),
{
    let ghost wanted = |dev: Device| wants_driver(dev);
    let mut candidates: Vec<Device> = Vec::new();
    let mut i: usize = 0;
    proof {
        reveal(Seq::filter);
    }
    while i < devices.len()
        invariant
            i <= devices.len(),
            wanted == |dev: Device| wants_driver(dev),
            candidates@ == devices@.take(i as int).filter(wanted),
        decreases devices.len() - i,
    {
        proof {
            assert(devices@.take(i + 1) == devices@.take(i as int).push(devices@[i as int]));
            devices@.take(i as int).lemma_filter_push(devices@[i as int], wanted);
        }
        if needs_install(&devices[i]) {
            candidates.push(devices[i]);
        }
        i = i + 1;
    }
    assert(devices@.take(devices.len() as int) == devices@);
    candidates
}

/// The driver that is installed for the bootloader.
pub fn install_config() -> (config: InstallConfig)
    ensures
        config.vendor@ == VENDOR@,
        config.driver_path@ == DRIVER_PATH@,
        config.inf_name@ == INF_NAME@,
{
    InstallConfig {
        vendor: VENDOR.to_owned(),
        driver_path: DRIVER_PATH.to_owned(),
        inf_name: INF_NAME.to_owned(),
    }
}

} // verus!
