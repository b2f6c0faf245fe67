use corn_sprite::uart::{RegWrite, TxStep, Uart, FCR, IER, LCR, LSR, THR, TX_EMPTY, UART_BASE};

#[test]
fn uart_register_layout() {
    assert_eq!((THR, IER, FCR, LCR, LSR), (0, 1, 2, 3, 5));
    assert_eq!(TX_EMPTY, 1 << 5);
    assert_eq!(UART_BASE, 0x1000_0000);
}

#[test]
fn uart_init_writes() {
    let u = Uart::new(UART_BASE);
    assert_eq!(u.base(), UART_BASE);
    assert_eq!(
        u.init(),
        vec![
            RegWrite { addr: UART_BASE + 1, value: 0x00 },
            RegWrite { addr: UART_BASE + 2, value: 0x07 },
            RegWrite { addr: UART_BASE + 3, value: 0x03 },
        ]
    );
}

#[test]
fn uart_put_char_waits_for_empty_holding_register() {
    let u = Uart::new(UART_BASE);
    assert_eq!(u.put_char(0x00, b'A'), TxStep::Poll(UART_BASE + 5));
    assert_eq!(u.put_char(0xDF, b'A'), TxStep::Poll(UART_BASE + 5));
    assert_eq!(u.put_char(0x20, b'A'), TxStep::Send(RegWrite { addr: UART_BASE, value: b'A' }));
    assert_eq!(u.put_char(0x60, b'\n'), TxStep::Send(RegWrite { addr: UART_BASE, value: b'\n' }));
}

#[test]
fn uart_output_translates_newlines() {
    let u = Uart::new(UART_BASE);
    assert_eq!(u.output_bytes("ab\ncd\n"), b"ab\r\ncd\r\n".to_vec());
    assert_eq!(u.output_bytes(""), Vec::<u8>::new());
    assert_eq!(u.output_bytes("é"), "é".as_bytes().to_vec());
}
