use bytecode::Chunk;
use bytecode::Constants;
use bytecode::OpCode;
use bytecode::PoolError;
use bytecode::Value;

fn val(x: f64) -> Value {
    Value { bits: x.to_bits(), text: format!("{}", x) }
}

fn ready_pool() -> Constants {
    let mut pool = Constants::new();
    pool.init().unwrap();
    pool
}

#[test]
fn lines_match_appends() {
    let mut pool = ready_pool();
    let mut chunk = Chunk::new("lines");
    let appended: Vec<usize> = vec![3, 3, 3, 7, 7, 2, 9, 9];
    for (i, &line) in appended.iter().enumerate() {
        if i % 3 == 0 {
            chunk.add_constant(&mut pool, val(i as f64), line).unwrap();
        } else {
            chunk.add_return(line);
        }
    }
    for (i, &line) in appended.iter().enumerate() {
        assert_eq!(chunk.search_line(i), Some(line));
    }
    assert_eq!(chunk.search_line(appended.len()), None);
}

#[test]
fn lines_may_decrease() {
    let mut chunk = Chunk::new("loopback");
    chunk.add_return(10);
    chunk.add_return(4);
    chunk.add_return(4);
    assert_eq!(chunk.search_line(0), Some(10));
    assert_eq!(chunk.search_line(1), Some(4));
    assert_eq!(chunk.search_line(2), Some(4));
}

#[test]
fn inserted_value_resolves_and_persists() {
    let mut pool = ready_pool();
    let key = pool.set(val(19.0)).unwrap();
    assert_eq!(pool.get(key), Some(val(19.0)));
    for i in 0..100 {
        pool.set(val(i as f64)).unwrap();
    }
    assert_eq!(pool.get(key), Some(val(19.0)));
}

#[test]
fn equal_values_get_distinct_keys() {
    let mut pool = ready_pool();
    let k1 = pool.set(val(19.0)).unwrap();
    let k2 = pool.set(val(19.0)).unwrap();
    assert_ne!(k1, k2);
    assert_eq!(pool.get(k1), Some(val(19.0)));
    assert_eq!(pool.get(k2), Some(val(19.0)));
}

#[test]
fn second_init_fails() {
    let mut pool = Constants::new();
    assert_eq!(pool.init(), Ok(()));
    assert_eq!(pool.init(), Err(PoolError::AlreadyInitialized));
}

#[test]
fn uninitialized_pool_returns_absent() {
    let mut pool = Constants::new();
    assert!(!pool.initialized());
    assert_eq!(pool.set(val(1.0)), None);
    assert_eq!(pool.get(0), None);
    assert_eq!(pool.get(17), None);
}

#[test]
fn unknown_key_is_absent() {
    let mut pool = ready_pool();
    let key = pool.set(val(2.5)).unwrap();
    assert_eq!(pool.get(key.wrapping_add(12345)), None);
}

#[test]
fn disassembly_is_deterministic() {
    let mut pool = ready_pool();
    let mut chunk = Chunk::new("twice");
    chunk.add_constant(&mut pool, val(1.5), 1).unwrap();
    chunk.add_return(1);
    chunk.add_return(3);
    let first = chunk.disassemble(&pool);
    let second = chunk.disassemble(&pool);
    assert_eq!(first, second);
}

#[test]
fn disassembly_constant_then_return() {
    let mut pool = ready_pool();
    let mut chunk = Chunk::new("test");
    let key = chunk.add_constant(&mut pool, val(19.0), 1).unwrap();
    chunk.add_return(2);
    let text = chunk.disassemble(&pool);
    let expected = format!(
        "======= test ========\n00000 0001 Constant {} 19\n00001 0002 Return\n",
        key
    );
    assert_eq!(text, expected);
}

#[test]
fn disassembly_marks_repeated_line() {
    let mut pool = ready_pool();
    let mut chunk = Chunk::new("spans");
    let key = chunk.add_constant(&mut pool, val(5.0), 5).unwrap();
    chunk.add_return(5);
    chunk.add_return(6);
    let text = chunk.disassemble(&pool);
    let expected = format!(
        "======= spans ========\n00000 0005 Constant {} 5\n00001    | Return\n00002 0006 Return\n",
        key
    );
    assert_eq!(text, expected);
}

#[test]
fn empty_chunk_disassembles_to_header_only() {
    let pool = ready_pool();
    let chunk = Chunk::new("empty");
    assert_eq!(chunk.disassemble(&pool), "======= empty ========\n");
    assert_eq!(chunk.search_line(0), None);
}

#[test]
fn chunk_records_opcodes_in_order() {
    let mut pool = ready_pool();
    let mut chunk = Chunk::new("order");
    let key = chunk.add_constant(&mut pool, val(8.0), 1).unwrap();
    chunk.add_return(1);
    assert_eq!(chunk.len(), 2);
    assert_eq!(chunk.op_at(0), OpCode::Const(key));
    assert_eq!(chunk.op_at(1), OpCode::Return);
}

#[test]
fn first_row_shows_line_even_when_zero() {
    let pool = ready_pool();
    let mut chunk = Chunk::new("zero");
    chunk.add_return(0);
    chunk.add_return(0);
    let expected = "======= zero ========\n00000 0000 Return\n00001    | Return\n";
    assert_eq!(chunk.disassemble(&pool), expected);
}

#[test]
fn lookup_over_many_runs() {
    let mut chunk = Chunk::new("many");
    let mut lines: Vec<usize> = Vec::new();
    for i in 0..500 {
        // long shared spans, interrupted by dips back to an earlier line
        let line = if i % 7 == 3 { 1 } else { i / 5 + 10 };
        chunk.add_return(line);
        lines.push(line);
    }
    for (i, &line) in lines.iter().enumerate() {
        assert_eq!(chunk.search_line(i), Some(line));
    }
    assert_eq!(chunk.search_line(500), None);
    assert_eq!(chunk.search_line(usize::MAX), None);
}
