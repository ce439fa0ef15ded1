use the_rack::gic;
use the_rack::semihosting;
use the_rack::uart::{self, Uart};

#[test]
fn lines_come_in_thirty_twos() {
    assert_eq!(gic::num_interrupts(8), 288);
    assert_eq!(gic::num_interrupts(0), 32);
    assert_eq!(gic::num_interrupts(0xffff_ffff), 1024);
    assert_eq!(gic::num_interrupts(0xe0), 32);
}

#[test]
fn bringing_the_controller_up_writes_every_register_in_order() {
    let writes = gic::init(1);
    // Sixty four lines: one write to be quiet, three for each 32 lines, one
    // priority each, one target for each shared line, and four to let go.
    assert_eq!(writes.len(), 1 + 6 + 64 + 32 + 4);
    assert_eq!(writes[0], gic::Write::Word { address: 0x0800_0000, value: 0 });
    assert_eq!(writes[1], gic::Write::Word { address: 0x0800_0180, value: 0xffff_ffff });
    assert_eq!(writes[2], gic::Write::Word { address: 0x0800_0280, value: 0xffff_ffff });
    assert_eq!(writes[3], gic::Write::Word { address: 0x0800_0080, value: 0 });
    assert_eq!(writes[4], gic::Write::Word { address: 0x0800_0184, value: 0xffff_ffff });
    assert_eq!(writes[7], gic::Write::Byte { address: 0x0800_0400, byte: 0xa0 });
    assert_eq!(writes[70], gic::Write::Byte { address: 0x0800_043f, byte: 0xa0 });
    assert_eq!(writes[71], gic::Write::Byte { address: 0x0800_0820, byte: 1 });
    assert_eq!(writes[102], gic::Write::Byte { address: 0x0800_083f, byte: 1 });
    assert_eq!(writes[103], gic::Write::Word { address: 0x0800_0000, value: 1 });
    assert_eq!(writes[104], gic::Write::Word { address: 0x0801_0004, value: 0xff });
    assert_eq!(writes[105], gic::Write::Word { address: 0x0801_0008, value: 0 });
    assert_eq!(writes[106], gic::Write::Word { address: 0x0801_0000, value: 1 });
}

#[test]
fn enabling_sets_one_bit() {
    assert_eq!(gic::enable(30), gic::Write::Word { address: 0x0800_0100, value: 1 << 30 });
    assert_eq!(gic::enable(33), gic::Write::Word { address: 0x0800_0104, value: 2 });
}

#[test]
fn claiming_and_releasing_name_their_registers() {
    assert_eq!(gic::acknowledge(), 0x0801_000c);
    assert_eq!(
        gic::end_of_interrupt(30),
        gic::Write::Word { address: 0x0801_0010, value: 30 }
    );
}

#[test]
fn nothing_is_enabled_by_bringing_the_controller_up() {
    let writes = gic::init(8);
    for intid in 0..288 {
        assert!(!writes.contains(&gic::enable(intid)));
    }
}

#[test]
fn line_feeds_get_a_carriage_return() {
    assert_eq!(uart::write_str("a\nb\n"), b"a\r\nb\r\n".to_vec());
    assert_eq!(uart::write_str("plain"), b"plain".to_vec());
    assert_eq!(uart::write_str("\r\n"), b"\r\r\n".to_vec());
    assert_eq!(uart::write_str(""), Vec::<u8>::new());
    assert_eq!(uart::write_str("é\n"), vec![0xc3, 0xa9, 13, 10]);
}

#[test]
fn the_uart_is_configured_last_to_first_off_then_on() {
    let u = Uart::new(uart::PL011_BASE);
    assert_eq!(u.disable(), uart::Write { address: 0x0900_0030, value: 0 });
    let writes = u.init();
    let expected = [
        (0x0900_0024, 13),
        (0x0900_0028, 1),
        (0x0900_002c, 0x70),
        (0x0900_0038, 0),
        (0x0900_0044, 0x7ff),
        (0x0900_0030, 0x301),
    ];
    assert_eq!(writes.len(), expected.len());
    for (write, (address, value)) in writes.iter().zip(expected) {
        assert_eq!(*write, uart::Write { address, value });
    }
}

#[test]
fn a_byte_waits_for_room() {
    let u = Uart::new(uart::PL011_BASE);
    assert!(Uart::busy(1 << 3));
    assert!(!Uart::busy(!(1 << 3)));
    assert_eq!(u.put_byte(1 << 5, 0x41), None);
    assert_eq!(
        u.put_byte(!(1 << 5), 0x41),
        Some(uart::Write { address: 0x0900_0000, value: 0x41 })
    );
}

#[test]
fn exiting_hands_the_host_a_reason_and_a_status() {
    assert_eq!(semihosting::exit(semihosting::EXIT_FAILURE), (0x18, [0x2_0026, 1]));
    assert_eq!(semihosting::exit(semihosting::EXIT_SUCCESS), (0x18, [0x2_0026, 0]));
}
