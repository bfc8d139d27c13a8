use redis_clone::server::process_buffer;
use redis_clone::store::Store;

#[test]
fn answers_pipelined_commands_in_order() {
    let mut store = Store::new();
    let mut buffer = b"*1\r\n$4\r\nPING\r\n*1\r\n$4\r\nPING\r\n".to_vec();
    let output = process_buffer(&mut buffer, &mut store, 0);
    assert_eq!(output, b"+PONG\r\n+PONG\r\n".to_vec());
    assert!(buffer.is_empty());
}

#[test]
fn keeps_a_partial_command_until_it_is_complete() {
    let mut store = Store::new();
    let whole = b"*3\r\n$3\r\nSET\r\n$4\r\nname\r\n$5\r\nshady\r\n";
    let mut buffer = whole[..20].to_vec();
    assert_eq!(process_buffer(&mut buffer, &mut store, 0), Vec::<u8>::new());
    assert_eq!(buffer, whole[..20].to_vec());
    buffer.extend_from_slice(&whole[20..]);
    buffer.extend_from_slice(b"*2\r\n$3\r\nGET\r\n$4\r\nname\r\n*1\r\n$4\r\nPI");
    let output = process_buffer(&mut buffer, &mut store, 0);
    assert_eq!(output, b"+OK\r\n$5\r\nshady\r\n".to_vec());
    assert_eq!(buffer, b"*1\r\n$4\r\nPI".to_vec());
}

#[test]
fn protocol_error_clears_the_buffer() {
    let mut store = Store::new();
    let mut buffer = b"*1\r\n$4\r\nPING\r\nHELLO\r\n*1\r\n$4\r\nPING\r\n".to_vec();
    let output = process_buffer(&mut buffer, &mut store, 0);
    assert_eq!(
        output,
        b"+PONG\r\n-ERR Protocol error: invalid type byte\r\n".to_vec()
    );
    assert!(buffer.is_empty());
}

#[test]
fn readme_session() {
    let mut store = Store::new();
    let mut buffer = Vec::new();
    for part in [
        &b"*3\r\n$3\r\nSET\r\n$4\r\nname\r\n$5\r\nshady\r\n"[..],
        b"*2\r\n$3\r\nGET\r\n$4\r\nname\r\n",
        b"*2\r\n$4\r\nINCR\r\n$5\r\ncount\r\n",
        b"*2\r\n$4\r\nDECR\r\n$5\r\ncount\r\n",
        b"*4\r\n$6\r\nEXISTS\r\n$4\r\nname\r\n$5\r\ncount\r\n$7\r\nmissing\r\n",
        b"*3\r\n$6\r\nEXPIRE\r\n$4\r\nname\r\n$1\r\n3\r\n",
        b"*2\r\n$3\r\nTTL\r\n$4\r\nname\r\n",
        b"*4\r\n$3\r\nDEL\r\n$4\r\nname\r\n$5\r\ncount\r\n$7\r\nmissing\r\n",
        b"*2\r\n$3\r\nGET\r\n$4\r\nname\r\n",
    ] {
        buffer.extend_from_slice(part);
    }
    let output = process_buffer(&mut buffer, &mut store, 0);
    assert_eq!(
        output,
        b"+OK\r\n$5\r\nshady\r\n:1\r\n:0\r\n:2\r\n:1\r\n:3\r\n:2\r\n$-1\r\n".to_vec()
    );
}

#[test]
fn answers_do_not_depend_on_how_reads_split_the_input() {
    let input: &[u8] = b"*3\r\n$3\r\nSET\r\n$1\r\nk\r\n$2\r\n41\r\n*2\r\n$4\r\nINCR\r\n$1\r\nk\r\n*2\r\n$3\r\nGET\r\n$1\r\nk\r\n";
    let mut whole_store = Store::new();
    let mut whole_buffer = input.to_vec();
    let whole = process_buffer(&mut whole_buffer, &mut whole_store, 0);
    assert_eq!(whole, b"+OK\r\n:42\r\n$2\r\n42\r\n".to_vec());
    for cut in 0..=input.len() {
        let mut store = Store::new();
        let mut buffer = input[..cut].to_vec();
        let mut output = process_buffer(&mut buffer, &mut store, 0);
        buffer.extend_from_slice(&input[cut..]);
        output.extend(process_buffer(&mut buffer, &mut store, 0));
        assert_eq!(output, whole, "split at {cut}");
        assert!(buffer.is_empty());
    }
}

#[test]
fn answers_do_not_depend_on_how_many_reads_carry_the_input() {
    let input: &[u8] = b"*2\r\n$4\r\nECHO\r\n$2\r\nhi\r\n*2\r\n$4\r\nINCR\r\n$1\r\nn\r\n*2\r\n$4\r\nDECR\r\n$1\r\nn\r\n";
    let mut whole_store = Store::new();
    let mut whole_buffer = input.to_vec();
    let whole = process_buffer(&mut whole_buffer, &mut whole_store, 0);
    assert_eq!(whole, b"$2\r\nhi\r\n:1\r\n:0\r\n".to_vec());
    for first in 0..=input.len() {
        for second in first..=input.len() {
            let mut store = Store::new();
            let mut buffer: Vec<u8> = Vec::new();
            let mut output: Vec<u8> = Vec::new();
            for read in [&input[..first], &input[first..second], &input[second..]] {
                buffer.extend_from_slice(read);
                output.extend(process_buffer(&mut buffer, &mut store, 0));
            }
            assert_eq!(output, whole, "reads end at {first} and {second}");
            assert!(buffer.is_empty());
        }
    }
    let mut store = Store::new();
    let mut buffer: Vec<u8> = Vec::new();
    let mut output: Vec<u8> = Vec::new();
    for byte in input {
        buffer.push(*byte);
        output.extend(process_buffer(&mut buffer, &mut store, 0));
    }
    assert_eq!(output, whole);
}
