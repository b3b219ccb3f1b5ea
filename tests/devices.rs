use kernel::board::VirtBoard;
use kernel::console::echo;
use kernel::sbi::SBIReturn;
use kernel::uart::NS16550;
use kernel::LinkerGlobals;

#[test]
fn uart_setup_writes() {
    let u = NS16550::new(0x1000_0000);
    assert_eq!(u.address(), 0x1000_0000);
    assert_eq!(
        u.setup_writes(),
        vec![(0x1000_0003, 0b011), (0x1000_0002, 0b111), (0x1000_0001, 0b1)]
    );
    assert_eq!(u.transmit_address(), 0x1000_0000);
    assert_eq!(u.receive_address(), 0x1000_0000);
    assert_eq!(u.status_address(), 0x1000_0002);
}

#[test]
fn uart_data_ready() {
    assert!(NS16550::data_ready(0b0100));
    assert!(NS16550::data_ready(0b1101));
    assert!(!NS16550::data_ready(0b0001));
    assert!(!NS16550::data_ready(0));
}

#[test]
fn board_uart_at_global_address() {
    let g = LinkerGlobals { uart_address: 0x1000_0000, heap_start: 0, heap_end: 0 };
    let mut board = VirtBoard::new(&g);
    assert_eq!(board.get_uart().address(), 0x1000_0000);
    assert_eq!(board.get_uart_mut().address(), 0x1000_0000);
}

#[test]
fn sbi_return_fields() {
    let r = SBIReturn { error: 0, value: 7 };
    assert_eq!(r.error + r.value, 7);
}

#[test]
fn echo_bytes() {
    assert_eq!(echo(8), vec![8, b' ', 8]);
    assert_eq!(echo(10), b"\r\n".to_vec());
    assert_eq!(echo(13), b"\r\n".to_vec());
    assert_eq!(echo(b'a'), vec![b'a']);
    assert_eq!(echo(0xE9), "\u{e9}".as_bytes().to_vec());
    assert_eq!(echo(0xFF), (0xFFu8 as char).to_string().into_bytes());
}
