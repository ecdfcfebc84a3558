use qitc::{CompileError, LexError, Program, MAGIC};

const PREFIX: [u8; 4] = [0x2B, 0xFA, 0x91, 0xC0];

fn tokens_of(src: &str) -> Result<Program, LexError> {
    let words: Vec<&str> = src.split_whitespace().collect();
    let mut p = Program::new();
    p.lexer(words, &Vec::new())?;
    Ok(p)
}

fn build(src: &str) -> Result<Vec<u8>, CompileError> {
    let mut p = tokens_of(src).expect("source should tokenize");
    p.parse()
}

fn with_prefix(body: &[u8]) -> Vec<u8> {
    let mut v = PREFIX.to_vec();
    v.extend_from_slice(body);
    v
}

#[test]
fn block_with_int32_field() {
    assert_eq!(
        build("block h int32 v : 0x10 ; endblock"),
        Ok(vec![0x2B, 0xFA, 0x91, 0xC0, 0x10, 0x00, 0x00, 0x00])
    );
}

#[test]
fn bracketed_subtraction_outside_block() {
    assert_eq!(build("int8 a : [ 10 - 3 ] ;"), Ok(with_prefix(&[0x07])));
}

#[test]
fn magic_constant_is_little_endian() {
    assert_eq!(MAGIC.to_le_bytes(), PREFIX);
}

#[test]
fn every_width_truncates_little_endian() {
    let v: u64 = 0x8877_6655_4433_2211;
    let all = v.to_le_bytes();
    for n in 1..=8usize {
        let src = format!("block b int{} f : {} ; endblock", n * 8, v);
        assert_eq!(build(&src), Ok(with_prefix(&all[..n])), "width {}", n * 8);
    }
}

#[test]
fn int16_drops_high_bytes() {
    assert_eq!(build("block b int16 f : 0x12345 ; endblock"), Ok(with_prefix(&[0x45, 0x23])));
}

#[test]
fn int24_of_small_value() {
    assert_eq!(build("block b int24 f : 258 ; endblock"), Ok(with_prefix(&[0x02, 0x01, 0x00])));
}

#[test]
fn width_not_multiple_of_eight_fails() {
    assert_eq!(build("block b int12 f : 1 ; endblock"), Err(CompileError::InvalidWidth));
}

#[test]
fn width_zero_and_above_sixty_four_fail() {
    assert_eq!(build("block b int0 f : 1 ; endblock"), Err(CompileError::InvalidWidth));
    assert_eq!(build("block b int72 f : 1 ; endblock"), Err(CompileError::InvalidWidth));
}

#[test]
fn width_beyond_a_byte_fails_to_tokenize() {
    assert_eq!(tokens_of("int256 f : 1 ;").err(), Some(LexError::InvalidWidth));
    assert_eq!(tokens_of("integer").err(), Some(LexError::InvalidWidth));
}

#[test]
fn align_pads_to_multiple() {
    assert_eq!(
        build("!nomagic block b int8 a : 1 ; int16 c : 2 ; !align 4 int8 d : 3 ; endblock"),
        Ok(vec![1, 2, 0, 0, 3])
    );
}

#[test]
fn align_when_aligned_adds_nothing() {
    assert_eq!(build("!nomagic block b int32 a : 1 ; !align 4 endblock"), Ok(vec![1, 0, 0, 0]));
    assert_eq!(build("!nomagic !align 8"), Ok(vec![]));
}

#[test]
fn align_padding_is_minimal_for_each_length() {
    for len in 0..10usize {
        let mut src = String::from("!nomagic block b");
        for _ in 0..len {
            src.push_str(" int8 x : 9 ;");
        }
        src.push_str(" !align 4 endblock");
        let out = build(&src).unwrap();
        assert_eq!(out.len() % 4, 0);
        assert!(out.len() - len < 4);
        assert!(out[len..].iter().all(|b| *b == 0));
    }
}

#[test]
fn align_zero_fails() {
    assert_eq!(build("!align 0"), Err(CompileError::ZeroAlign));
}

#[test]
fn align_without_width_fails() {
    assert_eq!(build("!align x"), Err(CompileError::MissingAlignWidth));
}

#[test]
fn rept_repeats_region() {
    assert_eq!(
        build("!nomagic block b int8 a : 1 ; rept 3 int16 c : 0x0302 ; endrept int8 d : 4 ; endblock"),
        Ok(vec![1, 2, 3, 2, 3, 2, 3, 4])
    );
}

#[test]
fn rept_zero_yields_nothing() {
    assert_eq!(
        build("!nomagic block b int8 a : 1 ; rept 0 int8 c : 7 ; endrept endblock"),
        Ok(vec![1])
    );
}

#[test]
fn rept_region_is_aligned_on_its_own_buffer() {
    assert_eq!(
        build("!nomagic block b int8 a : 1 ; rept 2 int8 c : 7 ; !align 2 endrept endblock"),
        Ok(vec![1, 7, 0, 7, 0])
    );
}

#[test]
fn nested_rept_fails() {
    assert_eq!(build("rept 2 rept 2 endrept endrept"), Err(CompileError::NestedRept));
}

#[test]
fn endrept_without_rept_fails() {
    assert_eq!(build("endrept"), Err(CompileError::EndReptOutsideRept));
}

#[test]
fn unclosed_rept_fails() {
    assert_eq!(build("rept 2 block b int8 a : 1 ; endblock"), Err(CompileError::UnclosedRept));
}

#[test]
fn rept_without_count_fails() {
    assert_eq!(build("rept x endrept"), Err(CompileError::MissingReptCount));
}

#[test]
fn nested_block_fails() {
    assert_eq!(build("block a block b endblock endblock"), Err(CompileError::NestedBlock));
}

#[test]
fn block_without_name_fails() {
    assert_eq!(build("block 3"), Err(CompileError::MissingBlockName));
}

#[test]
fn endblock_without_block_fails() {
    assert_eq!(build("endblock"), Err(CompileError::EndBlockOutsideBlock));
}

#[test]
fn reference_after_declaration_resolves() {
    assert_eq!(
        build("!nomagic block a int8 x : 5 ; endblock block c int16 y : v$a.x ; int8 z : [ v$a.x * 3 ] ; endblock"),
        Ok(vec![5, 5, 0, 15])
    );
}

#[test]
fn reference_rewrites_the_token_list() {
    let mut p = tokens_of("block a int8 x : 42 ; int8 y : v$a.x ; endblock").unwrap();
    assert_eq!(p.list[10], qitc::Token::PathSubst(String::from("a"), String::from("x")));
    assert_eq!(p.parse(), Ok(with_prefix(&[42, 42])));
    assert_eq!(p.list[10], qitc::Token::Value(42));
    assert_eq!(p.index, p.list.len());
}

#[test]
fn reference_before_declaration_resolves() {
    assert_eq!(
        build("!nomagic block a int8 y : v$a.x ; int8 x : 5 ; endblock"),
        Ok(vec![5, 5])
    );
}

#[test]
fn reference_in_earlier_block_resolves() {
    assert_eq!(
        build("!nomagic block c int16 y : [ v$a.x + 1 ] ; endblock block a int8 x : 0x20 ; endblock"),
        Ok(vec![0x21, 0x00, 0x20])
    );
}

#[test]
fn chained_references_resolve() {
    assert_eq!(
        build("!nomagic block a int8 h : v$a.g ; int8 g : v$a.f ; int8 f : 9 ; endblock"),
        Ok(vec![9, 9, 9])
    );
}

#[test]
fn cyclic_references_stay_unresolved() {
    assert_eq!(
        build("block a int8 g : v$a.f ; int8 f : v$a.g ; endblock"),
        Err(CompileError::UnresolvedReference)
    );
}

#[test]
fn redeclared_field_takes_its_last_value() {
    assert_eq!(
        build("!nomagic block a int8 x : 1 ; int8 y : v$a.x ; int8 x : 2 ; endblock"),
        Ok(vec![1, 2, 2])
    );
}

#[test]
fn reopened_block_forgets_earlier_fields() {
    assert_eq!(
        build("block a int8 x : 1 ; endblock block a int8 y : v$a.x ; endblock"),
        Err(CompileError::UnresolvedReference)
    );
}

#[test]
fn missing_field_stays_unresolved() {
    assert_eq!(
        build("block a int8 x : 1 ; int8 y : v$a.z ; endblock"),
        Err(CompileError::UnresolvedReference)
    );
}

#[test]
fn stray_reference_is_unresolved() {
    assert_eq!(build("v$a.x"), Err(CompileError::UnresolvedReference));
}

#[test]
fn reference_to_field_outside_block_stays_unresolved() {
    assert_eq!(build("int8 x : 5 ; int8 y : v$a.x ;"), Err(CompileError::UnresolvedReference));
}

#[test]
fn nomagic_drops_prefix() {
    assert_eq!(build("!nomagic block h int8 v : 1 ; endblock"), Ok(vec![1]));
    assert_eq!(build("block h int8 v : 1 ; endblock !nomagic"), Ok(vec![1]));
}

#[test]
fn magic_after_nomagic_restores_prefix() {
    assert_eq!(build("!nomagic !magic block h int8 v : 1 ; endblock"), Ok(with_prefix(&[1])));
}

#[test]
fn empty_source_is_just_the_prefix() {
    assert_eq!(build(""), Ok(PREFIX.to_vec()));
}

#[test]
fn unknown_command_fails() {
    assert_eq!(build("!frobnicate"), Err(CompileError::UnknownCommand));
}

#[test]
fn stray_token_fails() {
    assert_eq!(build("5"), Err(CompileError::UnexpectedToken));
    assert_eq!(build(":"), Err(CompileError::UnexpectedToken));
}

#[test]
fn arithmetic_of_each_operator() {
    assert_eq!(build("!nomagic int8 a : [ 2 + 3 ] ;"), Ok(vec![5]));
    assert_eq!(build("!nomagic int8 a : [ 6 * 7 ] ;"), Ok(vec![42]));
    assert_eq!(build("!nomagic int8 a : [ 7 / 2 ] ;"), Ok(vec![3]));
    assert_eq!(build("!nomagic int8 a : [ 9 - 9 ] ;"), Ok(vec![0]));
}

#[test]
fn division_by_zero_fails() {
    assert_eq!(build("int8 a : [ 1 / 0 ] ;"), Err(CompileError::DivisionByZero));
}

#[test]
fn subtraction_underflow_fails() {
    assert_eq!(build("int8 a : [ 3 - 10 ] ;"), Err(CompileError::Underflow));
}

#[test]
fn multiplication_overflow_fails() {
    let src = format!("int64 a : [ {} * 2 ] ;", usize::MAX);
    assert_eq!(build(&src), Err(CompileError::Overflow));
    let src = format!("int64 a : [ {} + 1 ] ;", usize::MAX);
    assert_eq!(build(&src), Err(CompileError::Overflow));
}

#[test]
fn malformed_declarations_fail() {
    assert_eq!(build("int8 ;"), Err(CompileError::MissingFieldName));
    assert_eq!(build("int8 a 3 ;"), Err(CompileError::MissingAssign));
    assert_eq!(build("int8 a : b ;"), Err(CompileError::MissingValue));
    assert_eq!(build("int8 a : [ 1 2 ] ;"), Err(CompileError::MissingOperator));
    assert_eq!(build("int8 a : [ 1 + 2 ;"), Err(CompileError::MissingCloseBracket));
    assert_eq!(build("int8 a : 1"), Err(CompileError::MissingTerminator));
}

#[test]
fn parse_starts_at_the_cursor() {
    let mut p = tokens_of("block h int8 v : 1 ; endblock").unwrap();
    p.index = p.list.len();
    assert_eq!(p.parse(), Ok(PREFIX.to_vec()));
}

#[test]
fn rept_around_blocks_opened_anywhere() {
    assert_eq!(
        build("!nomagic block a int8 x : 1 ; endblock rept 2 block b int8 y : 2 ; endblock endrept block c int8 z : 3 ; endblock"),
        Ok(vec![1, 2, 2, 3])
    );
}

#[test]
fn references_compile_as_their_literal_values() {
    let with_refs = build("block a int16 g : v$a.f ; int8 f : 7 ; int8 h : [ v$a.f * 2 ] ; endblock");
    let with_values = build("block a int16 g : 7 ; int8 f : 7 ; int8 h : [ 7 * 2 ] ; endblock");
    assert_eq!(with_refs, with_values);
    assert_eq!(with_refs, Ok(with_prefix(&[7, 0, 7, 14])));
}
