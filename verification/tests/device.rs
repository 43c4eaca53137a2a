use motherboard::kernel::device::{check_abi_version, check_request, IoctlRefusal};

#[test]
fn only_the_execute_request_is_served() {
    assert_eq!(check_request(0xC018_4D01, 0xC018_4D01), Ok(()));
    assert_eq!(check_request(0x5401, 0xC018_4D01), Err(IoctlRefusal::UnknownCommand));
    assert_eq!(IoctlRefusal::UnknownCommand.errno(), 25);
}

#[test]
fn only_the_spoken_abi_version_is_served() {
    assert_eq!(check_abi_version(1, 1), Ok(()));
    assert_eq!(check_abi_version(2, 1), Err(IoctlRefusal::UnsupportedVersion));
    assert_eq!(IoctlRefusal::UnsupportedVersion.errno(), 22);
}
