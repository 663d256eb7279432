use respkv::command::Command;
use respkv::resp::RespType;
use respkv::store::Store;

fn bulk(s: &[u8]) -> RespType {
    RespType::BulkString(Some(s.to_vec()))
}

fn frame(parts: &[&[u8]]) -> RespType {
    RespType::Array(Some(parts.iter().map(|p| bulk(p)).collect()))
}

#[test]
fn from_resp_ping_is_case_insensitive() {
    assert_eq!(Command::from_resp(frame(&[b"PING"])), Some(Command::Ping));
    assert_eq!(Command::from_resp(frame(&[b"ping"])), Some(Command::Ping));
    assert_eq!(Command::from_resp(frame(&[b"PiNg"])), Some(Command::Ping));
}

#[test]
fn from_resp_ping_rejects_extra_operands() {
    assert_eq!(Command::from_resp(frame(&[b"PING", b"x"])), None);
    assert_eq!(Command::from_resp(frame(&[b"ping", b"a", b"b"])), None);
}

#[test]
fn from_resp_set_arity_is_three_or_five() {
    // an option token without a count is a malformed frame
    assert_eq!(Command::from_resp(frame(&[b"SET", b"k", b"v", b"EX"])), None);
    // so is anything past the option pair
    assert_eq!(
        Command::from_resp(frame(&[b"SET", b"k", b"v", b"EX", b"1", b"z"])),
        None
    );
    assert_eq!(Command::from_resp(frame(&[b"SET", b"k"])), None);
}

#[test]
fn from_resp_echo() {
    assert_eq!(
        Command::from_resp(frame(&[b"ECHO", b"hi"])),
        Some(Command::Echo(b"hi".to_vec()))
    );
    assert_eq!(Command::from_resp(frame(&[b"ECHO"])), None);
    assert_eq!(Command::from_resp(frame(&[b"ECHO", b"a", b"b"])), None);
}

#[test]
fn from_resp_set_without_expiry() {
    assert_eq!(
        Command::from_resp(frame(&[b"SET", b"k", b"v"])),
        Some(Command::SetKey {
            key: b"k".to_vec(),
            value: b"v".to_vec(),
            expiry: None,
        })
    );
    assert_eq!(Command::from_resp(frame(&[b"SET", b"k"])), None);
}

#[test]
fn from_resp_set_with_ex_and_px() {
    assert_eq!(
        Command::from_resp(frame(&[b"SET", b"k", b"v", b"EX", b"10"])),
        Some(Command::SetKey {
            key: b"k".to_vec(),
            value: b"v".to_vec(),
            expiry: Some(10_000),
        })
    );
    assert_eq!(
        Command::from_resp(frame(&[b"set", b"k", b"v", b"px", b"500"])),
        Some(Command::SetKey {
            key: b"k".to_vec(),
            value: b"v".to_vec(),
            expiry: Some(500),
        })
    );
}

#[test]
fn from_resp_set_ignores_bad_options() {
    // unrecognised option token: no expiry, not an error
    assert_eq!(
        Command::from_resp(frame(&[b"SET", b"k", b"v", b"XX", b"10"])),
        Some(Command::SetKey {
            key: b"k".to_vec(),
            value: b"v".to_vec(),
            expiry: None,
        })
    );
    // unparsable count: no expiry, not an error
    assert_eq!(
        Command::from_resp(frame(&[b"SET", b"k", b"v", b"EX", b"soon"])),
        Some(Command::SetKey {
            key: b"k".to_vec(),
            value: b"v".to_vec(),
            expiry: None,
        })
    );
}

#[test]
fn from_resp_get_exists_incr_decr() {
    assert_eq!(
        Command::from_resp(frame(&[b"GET", b"k"])),
        Some(Command::Get(b"k".to_vec()))
    );
    assert_eq!(
        Command::from_resp(frame(&[b"EXISTS", b"k"])),
        Some(Command::Exists(b"k".to_vec()))
    );
    assert_eq!(
        Command::from_resp(frame(&[b"INCR", b"k"])),
        Some(Command::Incr(b"k".to_vec()))
    );
    assert_eq!(
        Command::from_resp(frame(&[b"DECR", b"k"])),
        Some(Command::Decr(b"k".to_vec()))
    );
    assert_eq!(Command::from_resp(frame(&[b"GET"])), None);
    assert_eq!(Command::from_resp(frame(&[b"GET", b"a", b"b"])), None);
}

#[test]
fn from_resp_del_takes_many_keys() {
    assert_eq!(
        Command::from_resp(frame(&[b"DEL", b"a", b"b", b"c"])),
        Some(Command::Del(vec![
            b"a".to_vec(),
            b"b".to_vec(),
            b"c".to_vec()
        ]))
    );
    assert_eq!(Command::from_resp(frame(&[b"DEL"])), None);
    // a non-bulk key rejects the whole frame
    let mixed = RespType::Array(Some(vec![bulk(b"DEL"), RespType::Integer(1)]));
    assert_eq!(Command::from_resp(mixed), None);
}

#[test]
fn from_resp_rejects_ill_shaped_frames() {
    assert_eq!(Command::from_resp(RespType::Integer(1)), None);
    assert_eq!(Command::from_resp(RespType::Array(None)), None);
    assert_eq!(Command::from_resp(RespType::Array(Some(vec![]))), None);
    let name_not_bulk = RespType::Array(Some(vec![RespType::Integer(1)]));
    assert_eq!(Command::from_resp(name_not_bulk), None);
}

#[test]
fn from_resp_unknown_keeps_uppercased_name() {
    assert_eq!(
        Command::from_resp(frame(&[b"flush", b"x"])),
        Some(Command::Unknown(b"FLUSH".to_vec()))
    );
}

fn run(store: &mut Store, bytes: &[u8], now: u64) -> Vec<u8> {
    let (frame, consumed) = RespType::parse(bytes).unwrap().unwrap();
    assert_eq!(consumed, bytes.len());
    let cmd = Command::from_resp(frame).expect("frame must be a command");
    cmd.execute(store, now).serialize()
}

#[test]
fn execute_ping_and_echo() {
    let mut s = Store::new();
    assert_eq!(run(&mut s, b"*1\r\n$4\r\nPING\r\n", 0), b"+PONG\r\n".to_vec());
    assert_eq!(
        run(&mut s, b"*2\r\n$4\r\nECHO\r\n$2\r\nhi\r\n", 0),
        b"$2\r\nhi\r\n".to_vec()
    );
}

#[test]
fn execute_set_get_cycle() {
    let mut s = Store::new();
    assert_eq!(
        run(&mut s, b"*3\r\n$3\r\nSET\r\n$1\r\nk\r\n$1\r\nv\r\n", 0),
        b"+OK\r\n".to_vec()
    );
    assert_eq!(
        run(&mut s, b"*2\r\n$3\r\nGET\r\n$1\r\nk\r\n", 0),
        b"$1\r\nv\r\n".to_vec()
    );
    assert_eq!(
        run(&mut s, b"*2\r\n$3\r\nGET\r\n$1\r\nz\r\n", 0),
        b"$-1\r\n".to_vec()
    );
}

#[test]
fn execute_expiry_through_commands() {
    let mut s = Store::new();
    assert_eq!(
        run(&mut s, b"*5\r\n$3\r\nSET\r\n$1\r\nk\r\n$1\r\nv\r\n$2\r\nEX\r\n$1\r\n0\r\n", 1000),
        b"+OK\r\n".to_vec()
    );
    assert_eq!(
        run(&mut s, b"*2\r\n$3\r\nGET\r\n$1\r\nk\r\n", 1001),
        b"$-1\r\n".to_vec()
    );
    assert_eq!(
        run(&mut s, b"*2\r\n$6\r\nEXISTS\r\n$1\r\nk\r\n", 1001),
        b":0\r\n".to_vec()
    );
}

#[test]
fn execute_del_and_exists() {
    let mut s = Store::new();
    run(&mut s, b"*3\r\n$3\r\nSET\r\n$1\r\na\r\n$1\r\n1\r\n", 0);
    assert_eq!(
        run(&mut s, b"*2\r\n$6\r\nEXISTS\r\n$1\r\na\r\n", 0),
        b":1\r\n".to_vec()
    );
    assert_eq!(
        run(&mut s, b"*3\r\n$3\r\nDEL\r\n$1\r\na\r\n$1\r\nb\r\n", 0),
        b":1\r\n".to_vec()
    );
    assert_eq!(
        run(&mut s, b"*2\r\n$3\r\nGET\r\n$1\r\na\r\n", 0),
        b"$-1\r\n".to_vec()
    );
}

#[test]
fn execute_counters_and_their_error() {
    let mut s = Store::new();
    assert_eq!(
        run(&mut s, b"*2\r\n$4\r\nINCR\r\n$1\r\nc\r\n", 0),
        b":1\r\n".to_vec()
    );
    assert_eq!(
        run(&mut s, b"*2\r\n$4\r\nINCR\r\n$1\r\nc\r\n", 0),
        b":2\r\n".to_vec()
    );
    assert_eq!(
        run(&mut s, b"*2\r\n$4\r\nDECR\r\n$1\r\nc\r\n", 0),
        b":1\r\n".to_vec()
    );
    run(&mut s, b"*3\r\n$3\r\nSET\r\n$1\r\nt\r\n$3\r\nabc\r\n", 0);
    assert_eq!(
        run(&mut s, b"*2\r\n$4\r\nINCR\r\n$1\r\nt\r\n", 0),
        b"-ERR value is not an integer or out of range\r\n".to_vec()
    );
    assert_eq!(
        run(&mut s, b"*2\r\n$3\r\nGET\r\n$1\r\nt\r\n", 0),
        b"$3\r\nabc\r\n".to_vec()
    );
}

#[test]
fn execute_unknown_command_names_it() {
    let mut s = Store::new();
    assert_eq!(
        run(&mut s, b"*1\r\n$3\r\nFOO\r\n", 0),
        b"-ERR unknown command 'FOO'\r\n".to_vec()
    );
}

#[test]
fn plain_text_line_drives_commands_too() {
    let mut s = Store::new();
    assert_eq!(run(&mut s, b"set k v\r\n", 0), b"+OK\r\n".to_vec());
    assert_eq!(run(&mut s, b"get k\r\n", 0), b"$1\r\nv\r\n".to_vec());
}
