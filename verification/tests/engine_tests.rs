use respkv::engine::Engine;
use respkv::object::{Object, ObjectArray};
use respkv::resp::{deserialize_object, serialize, BufferSource, ReadState};

fn decode(bytes: &[u8]) -> Object {
    let mut source = BufferSource::new(bytes.to_vec(), 1024);
    let mut state = ReadState::new();
    deserialize_object(&mut state, &mut source).expect("well-formed command bytes")
}

fn encode(o: &Object) -> Vec<u8> {
    let mut out = Vec::new();
    serialize(&mut out, o);
    out
}

/// One client turn: command bytes in, reply bytes out.
fn run(engine: &mut Engine, bytes: &[u8], now_ms: u64) -> Vec<u8> {
    let command = decode(bytes);
    let reply = engine.do_command(command, now_ms);
    encode(&reply)
}

fn bulk(s: &[u8]) -> Object {
    Object::BulkString(Some(s.to_vec()))
}

fn command(parts: &[&[u8]]) -> Vec<u8> {
    let items = parts.iter().map(|p| bulk(p)).collect();
    encode(&Object::Array(ObjectArray { items }))
}

#[test]
fn ping_pongs() {
    let mut engine = Engine::new();
    assert_eq!(run(&mut engine, b"*1\r\n$4\r\nPING\r\n", 0), b"+PONG\r\n");
}

#[test]
fn echoes_the_argument() {
    let mut engine = Engine::new();
    assert_eq!(
        run(&mut engine, b"*2\r\n$4\r\nECHO\r\n$5\r\nhello\r\n", 0),
        b"$5\r\nhello\r\n"
    );
}

#[test]
fn sets_then_gets() {
    let mut engine = Engine::new();
    assert_eq!(
        run(&mut engine, b"*3\r\n$3\r\nSET\r\n$3\r\nfoo\r\n$3\r\nbar\r\n", 0),
        b"+OK\r\n"
    );
    assert_eq!(
        run(&mut engine, b"*2\r\n$3\r\nGET\r\n$3\r\nfoo\r\n", 0),
        b"$3\r\nbar\r\n"
    );
}

#[test]
fn expires_after_px_milliseconds() {
    let mut engine = Engine::new();
    assert_eq!(
        run(
            &mut engine,
            b"*5\r\n$3\r\nSET\r\n$1\r\nk\r\n$1\r\nv\r\n$2\r\nPX\r\n$3\r\n100\r\n",
            0
        ),
        b"+OK\r\n"
    );
    // 200 ms later the entry is gone
    assert_eq!(run(&mut engine, &command(&[b"GET", b"k"]), 200), b"$-1\r\n");
}

#[test]
fn survives_until_px_milliseconds() {
    let mut engine = Engine::new();
    run(
        &mut engine,
        &command(&[b"SET", b"k", b"v", b"PX", b"100"]),
        0,
    );
    // at exactly the deadline the entry still answers
    assert_eq!(
        run(&mut engine, &command(&[b"GET", b"k"]), 100),
        b"$1\r\nv\r\n"
    );
    assert_eq!(run(&mut engine, &command(&[b"GET", b"k"]), 101), b"$-1\r\n");
}

#[test]
fn pushes_right_then_ranges() {
    let mut engine = Engine::new();
    assert_eq!(
        run(&mut engine, &command(&[b"RPUSH", b"list", b"a", b"b", b"c"]), 0),
        b":3\r\n"
    );
    assert_eq!(
        run(&mut engine, &command(&[b"LRANGE", b"list", b"0", b"-1"]), 0),
        b"*3\r\n$1\r\na\r\n$1\r\nb\r\n$1\r\nc\r\n"
    );
}

#[test]
fn pushes_left_in_reverse_order() {
    let mut engine = Engine::new();
    run(&mut engine, &command(&[b"RPUSH", b"list", b"a", b"b", b"c"]), 0);
    assert_eq!(
        run(&mut engine, &command(&[b"LPUSH", b"list", b"x", b"y"]), 0),
        b":5\r\n"
    );
    assert_eq!(
        run(&mut engine, &command(&[b"LRANGE", b"list", b"0", b"-1"]), 0),
        b"*5\r\n$1\r\ny\r\n$1\r\nx\r\n$1\r\na\r\n$1\r\nb\r\n$1\r\nc\r\n"
    );
}

#[test]
fn names_are_case_insensitive() {
    let mut engine = Engine::new();
    assert_eq!(run(&mut engine, &command(&[b"ping"]), 0), b"+PONG\r\n");
    assert_eq!(
        run(&mut engine, &command(&[b"sEt", b"a", b"1"]), 0),
        b"+OK\r\n"
    );
    assert_eq!(
        run(&mut engine, &command(&[b"get", b"a"]), 0),
        b"$1\r\n1\r\n"
    );
}

#[test]
fn rejects_malformed_commands() {
    let mut engine = Engine::new();
    assert_eq!(
        run(&mut engine, b":1\r\n", 0),
        b"-expected an non-empty array\r\n".to_vec()
    );
    assert_eq!(
        run(&mut engine, b"*0\r\n", 0),
        b"-expected an non-empty array\r\n".to_vec()
    );
    assert_eq!(
        run(&mut engine, b"*1\r\n:1\r\n", 0),
        b"-expected first element to be a non-null bulk string\r\n".to_vec()
    );
    assert_eq!(
        run(&mut engine, &command(&[b"NOSUCH", b"x"]), 0),
        b"-unknown command\r\n".to_vec()
    );
}

#[test]
fn checks_arity() {
    let mut engine = Engine::new();
    assert_eq!(
        run(&mut engine, &command(&[b"GET"]), 0),
        b"-GET requires a key argument\r\n".to_vec()
    );
    assert_eq!(
        run(&mut engine, &command(&[b"GET", b"a", b"b"]), 0),
        b"-GET requires exactly one argument\r\n".to_vec()
    );
    assert_eq!(
        run(&mut engine, &command(&[b"ECHO"]), 0),
        b"-ECHO requires an argument\r\n".to_vec()
    );
    assert_eq!(
        run(&mut engine, &command(&[b"ECHO", b"a", b"b"]), 0),
        b"-ECHO requires exactly one argument\r\n".to_vec()
    );
    assert_eq!(
        run(&mut engine, &command(&[b"SET"]), 0),
        b"-SET requires a key argument\r\n".to_vec()
    );
    assert_eq!(
        run(&mut engine, &command(&[b"SET", b"k"]), 0),
        b"-SET requires a value argument\r\n".to_vec()
    );
    assert_eq!(
        run(&mut engine, &command(&[b"RPUSH"]), 0),
        b"-RPUSH requires a key argument\r\n".to_vec()
    );
    assert_eq!(
        run(&mut engine, &command(&[b"RPUSH", b"k"]), 0),
        b"-RPUSH requires an element argument\r\n".to_vec()
    );
    assert_eq!(
        run(&mut engine, &command(&[b"LPUSH"]), 0),
        b"-LPUSH requires a key argument\r\n".to_vec()
    );
    assert_eq!(
        run(&mut engine, &command(&[b"LPUSH", b"k"]), 0),
        b"-LPUSH requires an element argument\r\n".to_vec()
    );
    assert_eq!(
        run(&mut engine, &command(&[b"LLEN"]), 0),
        b"-LLEN requires a key argument\r\n".to_vec()
    );
    assert_eq!(
        run(&mut engine, &command(&[b"LPOP"]), 0),
        b"-LLEN requires a key argument\r\n".to_vec()
    );
    assert_eq!(
        run(&mut engine, &command(&[b"LRANGE"]), 0),
        b"-LRANGE requires a key argument\r\n".to_vec()
    );
    assert_eq!(
        run(&mut engine, &command(&[b"LRANGE", b"k"]), 0),
        b"-LRANGE requires a start index\r\n".to_vec()
    );
    assert_eq!(
        run(&mut engine, &command(&[b"LRANGE", b"k", b"0"]), 0),
        b"-LRANGE requires a stop index\r\n".to_vec()
    );
}

#[test]
fn rejects_bad_set_options() {
    let mut engine = Engine::new();
    assert_eq!(
        run(&mut engine, &command(&[b"SET", b"k", b"v", b"EX", b"1"]), 0),
        b"-SET supports only the PX option\r\n".to_vec()
    );
    assert_eq!(
        run(&mut engine, &command(&[b"SET", b"k", b"v", b"PX"]), 0),
        b"-PX requires a duration\r\n".to_vec()
    );
    assert_eq!(
        run(
            &mut engine,
            &command(&[b"SET", b"k", b"v", b"PX", b"1", b"extra"]),
            0
        ),
        b"-SET requires exactly two or four arguments\r\n".to_vec()
    );
    assert_eq!(
        run(&mut engine, &command(&[b"SET", b"k", b"v", b"PX", b"10x"]), 0),
        b"-Invalid PX duration\r\n".to_vec()
    );
    // a rejected SET leaves the store untouched
    assert_eq!(run(&mut engine, &command(&[b"GET", b"k"]), 0), b"$-1\r\n");
}

#[test]
fn px_option_is_case_insensitive_and_empty_is_zero() {
    let mut engine = Engine::new();
    run(&mut engine, &command(&[b"SET", b"k", b"v", b"px", b"50"]), 0);
    assert_eq!(run(&mut engine, &command(&[b"GET", b"k"]), 51), b"$-1\r\n");
    // an empty duration counts as zero milliseconds
    run(&mut engine, &command(&[b"SET", b"e", b"v", b"PX", b""]), 5);
    assert_eq!(run(&mut engine, &command(&[b"GET", b"e"]), 5), b"$1\r\nv\r\n");
    assert_eq!(run(&mut engine, &command(&[b"GET", b"e"]), 6), b"$-1\r\n");
}

#[test]
fn guards_list_commands_by_type() {
    let mut engine = Engine::new();
    run(&mut engine, &command(&[b"SET", b"s", b"text"]), 0);
    assert_eq!(
        run(&mut engine, &command(&[b"RPUSH", b"s", b"x"]), 0),
        b"-object at key is not an array\r\n".to_vec()
    );
    assert_eq!(
        run(&mut engine, &command(&[b"LPUSH", b"s", b"x"]), 0),
        b"-object at key is not an array\r\n".to_vec()
    );
    // the entry is unchanged
    assert_eq!(
        run(&mut engine, &command(&[b"GET", b"s"]), 0),
        b"$4\r\ntext\r\n"
    );
    // length and pop treat it as no list at all
    assert_eq!(run(&mut engine, &command(&[b"LLEN", b"s"]), 0), b":0\r\n");
    assert_eq!(run(&mut engine, &command(&[b"LPOP", b"s"]), 0), b"$-1\r\n");
}

#[test]
fn measures_and_pops_lists() {
    let mut engine = Engine::new();
    assert_eq!(run(&mut engine, &command(&[b"LLEN", b"nope"]), 0), b":0\r\n");
    assert_eq!(run(&mut engine, &command(&[b"LPOP", b"nope"]), 0), b"$-1\r\n");
    run(&mut engine, &command(&[b"RPUSH", b"l", b"a", b"b"]), 0);
    assert_eq!(run(&mut engine, &command(&[b"LLEN", b"l"]), 0), b":2\r\n");
    assert_eq!(
        run(&mut engine, &command(&[b"LPOP", b"l"]), 0),
        b"$1\r\na\r\n"
    );
    assert_eq!(
        run(&mut engine, &command(&[b"LPOP", b"l"]), 0),
        b"$1\r\nb\r\n"
    );
    assert_eq!(run(&mut engine, &command(&[b"LPOP", b"l"]), 0), b"$-1\r\n");
    assert_eq!(run(&mut engine, &command(&[b"LLEN", b"l"]), 0), b":0\r\n");
}

#[test]
fn ranges_follow_index_rules() {
    let mut engine = Engine::new();
    run(
        &mut engine,
        &command(&[b"RPUSH", b"l", b"a", b"b", b"c", b"d", b"e"]),
        0,
    );
    let range = |engine: &mut Engine, s: &[u8], e: &[u8]| {
        run(engine, &command(&[b"LRANGE", b"l", s, e]), 0)
    };
    assert_eq!(range(&mut engine, b"0", b"-1"), encode_list(&[b"a", b"b", b"c", b"d", b"e"]));
    assert_eq!(range(&mut engine, b"1", b"3"), encode_list(&[b"b", b"c", b"d"]));
    assert_eq!(range(&mut engine, b"-2", b"-1"), encode_list(&[b"d", b"e"]));
    assert_eq!(range(&mut engine, b"-100", b"1"), encode_list(&[b"a", b"b"]));
    assert_eq!(range(&mut engine, b"2", b"100"), encode_list(&[b"c", b"d", b"e"]));
    assert_eq!(range(&mut engine, b"5", b"7"), encode_list(&[]));
    assert_eq!(range(&mut engine, b"3", b"1"), encode_list(&[]));
    assert_eq!(range(&mut engine, b"+1", b"+2"), encode_list(&[b"b", b"c"]));
    // a missing key and a non-list value both give the empty array
    assert_eq!(
        run(&mut engine, &command(&[b"LRANGE", b"nope", b"0", b"-1"]), 0),
        encode_list(&[])
    );
    run(&mut engine, &command(&[b"SET", b"s", b"x"]), 0);
    assert_eq!(
        run(&mut engine, &command(&[b"LRANGE", b"s", b"0", b"-1"]), 0),
        encode_list(&[])
    );
    // unparseable indices are errors
    assert_eq!(
        run(&mut engine, &command(&[b"LRANGE", b"l", b"x", b"1"]), 0),
        b"-couldn't parse start as an integer\r\n".to_vec()
    );
    assert_eq!(
        run(&mut engine, &command(&[b"LRANGE", b"l", b"1", b"y"]), 0),
        b"-couldn't parse stop as an integer\r\n".to_vec()
    );
}

#[test]
fn range_indices_must_be_bulk_strings() {
    let mut engine = Engine::new();
    run(&mut engine, &command(&[b"RPUSH", b"l", b"a"]), 0);
    // an integer object where an index bulk string is expected
    assert_eq!(
        run(&mut engine, b"*4\r\n$6\r\nLRANGE\r\n$1\r\nl\r\n:0\r\n:1\r\n", 0),
        b"-LRANGE requires a start index\r\n".to_vec()
    );
}

#[test]
fn set_overwrites_and_resets_expiry() {
    let mut engine = Engine::new();
    run(&mut engine, &command(&[b"SET", b"k", b"old", b"PX", b"10"]), 0);
    run(&mut engine, &command(&[b"SET", b"k", b"new"]), 5);
    // the overwrite dropped the expiry
    assert_eq!(
        run(&mut engine, &command(&[b"GET", b"k"]), 1000),
        b"$3\r\nnew\r\n"
    );
}

#[test]
fn rpush_on_missing_key_creates_the_list() {
    let mut engine = Engine::new();
    assert_eq!(
        run(&mut engine, &command(&[b"LPUSH", b"l", b"b", b"a"]), 0),
        b":2\r\n"
    );
    assert_eq!(
        run(&mut engine, &command(&[b"LRANGE", b"l", b"0", b"-1"]), 0),
        encode_list(&[b"a", b"b"])
    );
}

#[test]
fn keys_may_be_any_object() {
    let mut engine = Engine::new();
    // an integer key, sent as a wire integer
    assert_eq!(
        run(&mut engine, b"*3\r\n$3\r\nSET\r\n:5\r\n$3\r\nval\r\n", 0),
        b"+OK\r\n"
    );
    assert_eq!(
        run(&mut engine, b"*2\r\n$3\r\nGET\r\n:5\r\n", 0),
        b"$3\r\nval\r\n"
    );
    // a different key misses
    assert_eq!(run(&mut engine, b"*2\r\n$3\r\nGET\r\n:6\r\n", 0), b"$-1\r\n");
}

fn encode_list(parts: &[&[u8]]) -> Vec<u8> {
    let items = parts.iter().map(|p| bulk(p)).collect();
    encode(&Object::Array(ObjectArray { items }))
}

#[test]
fn replies_are_a_function_of_the_commands() {
    // two fresh engines fed the same commands at the same readings agree
    let script: Vec<(&[u8], u64)> = vec![
        (b"*3\r\n$3\r\nSET\r\n$1\r\na\r\n$1\r\n1\r\n", 0),
        (b"*5\r\n$3\r\nSET\r\n$1\r\nb\r\n$1\r\n2\r\n$2\r\nPX\r\n$2\r\n10\r\n", 3),
        (b"*2\r\n$3\r\nGET\r\n$1\r\na\r\n", 5),
        (b"*2\r\n$3\r\nGET\r\n$1\r\nb\r\n", 20),
        (b"*4\r\n$5\r\nRPUSH\r\n$1\r\nl\r\n$1\r\nx\r\n$1\r\ny\r\n", 21),
        (b"*2\r\n$4\r\nLPOP\r\n$1\r\nl\r\n", 22),
    ];
    let mut one = Engine::new();
    let mut two = Engine::new();
    for (bytes, now) in script {
        assert_eq!(run(&mut one, bytes, now), run(&mut two, bytes, now));
    }
}

#[test]
fn exposes_the_building_blocks() {
    // the pieces the engine is built from, called on their own
    let mut name = b"lRaNgE".to_vec();
    respkv::engine::convert_to_ascii_uppercase(&mut name);
    assert_eq!(name, b"LRANGE".to_vec());

    assert_eq!(respkv::engine::parse_i64(&b"-12".to_vec()), Some(-12));
    assert_eq!(respkv::engine::parse_i64(&b"+4".to_vec()), Some(4));
    assert_eq!(respkv::engine::parse_i64(&b"-".to_vec()), None);
    assert_eq!(respkv::engine::parse_i64(&b"".to_vec()), None);
    assert_eq!(respkv::engine::parse_i64(&b"1x".to_vec()), None);
    // the most negative value has no in-range magnitude, so it is refused
    assert_eq!(
        respkv::engine::parse_i64(&b"-9223372036854775808".to_vec()),
        None
    );

    let list = ObjectArray {
        items: vec![bulk(b"a"), bulk(b"b"), bulk(b"c")],
    };
    assert_eq!(list.lrange(0, -1), vec![bulk(b"a"), bulk(b"b"), bulk(b"c")]);
    assert_eq!(list.lrange(-2, 5), vec![bulk(b"b"), bulk(b"c")]);
    assert_eq!(list.lrange(2, 1), vec![]);
    assert_eq!(list.lrange(3, 9), vec![]);

    let empty = ObjectArray { items: vec![] };
    assert_eq!(empty.lrange(0, -1), vec![]);
}
