use teip::consume::consume_tokens;
use teip::intercepter::PipeIntercepter;
use teip::procs::{
    char_proc, field_proc, field_regex_proc, line_line_proc, regex_line_proc, regex_proc,
};
use teip::ranges::Range;
use teip::token::Token;

#[test]
fn pattern_streaming_end_to_end() {
    // input `hello world\n`, pattern `o`, a line-synchronous subprocess
    // that upper-cases, non-inverted, only-matched mode
    let re = regex::bytes::Regex::new("o").unwrap();
    let mut ch = PipeIntercepter::start_output(b'\n', false, Vec::new(), Vec::new());
    let line = b"hello world".to_vec();
    regex_proc(&mut ch, &line, &re, false);
    ch.send_msg(b"\n".to_vec());
    ch.send_eof();
    assert_eq!(ch.pipe_bytes, b"o\no\n".to_vec());
    let units = vec![b"O".to_vec(), b"O".to_vec()];
    let runs: Vec<Vec<u8>> = Vec::new();
    let (out, completed) = consume_tokens(&ch.tokens, &units, &runs);
    assert!(completed);
    assert_eq!(out, b"hellO wOrld\n".to_vec());
}

#[test]
fn line_range_streaming_end_to_end() {
    // input `1\n2\n3\n4\n`, line range 2-3, identity subprocess: lines 2
    // and 3 are routed, lines 1 and 4 pass through, order is kept
    let rs = vec![Range { low: 2, high: 3 }];
    let mut ch = PipeIntercepter::start_output(b'\n', false, Vec::new(), Vec::new());
    let eol = b"\n".to_vec();
    let mut cursor: usize = 0;
    let lines: [&[u8]; 4] = [b"1", b"2", b"3", b"4"];
    for (i, l) in lines.iter().enumerate() {
        cursor = line_line_proc(&mut ch, &l.to_vec(), &eol, &rs, false, i + 1, cursor);
    }
    ch.send_eof();
    assert_eq!(ch.pipe_bytes, b"2\n3\n".to_vec());
    let units = vec![b"2".to_vec(), b"3".to_vec()];
    let (out, completed) = consume_tokens(&ch.tokens, &units, &Vec::new());
    assert!(completed);
    assert_eq!(out, b"1\n2\n3\n4\n".to_vec());
}

#[test]
fn dry_run_is_identity() {
    // no subprocess and an empty highlight: output equals input exactly
    let rs = vec![Range { low: 2, high: 3 }];
    let mut ch = PipeIntercepter::start_output(b'\n', true, Vec::new(), Vec::new());
    for l in [&b"abc"[..], &b""[..], &b"xyzzy"[..]] {
        char_proc(&mut ch, &l.to_vec(), &rs, false);
        ch.send_msg(b"\n".to_vec());
    }
    ch.send_eof();
    assert_eq!(ch.pipe_bytes, Vec::<u8>::new());
    let (out, completed) = consume_tokens(&ch.tokens, &Vec::new(), &Vec::new());
    assert!(completed);
    assert_eq!(out, b"abc\n\nxyzzy\n".to_vec());
}

#[test]
fn dry_run_highlights_selected_parts() {
    let rs = vec![Range { low: 2, high: 2 }];
    let mut ch = PipeIntercepter::start_output(b'\n', true, b"[".to_vec(), b"]".to_vec());
    field_proc(&mut ch, &b"a,b,c".to_vec(), &b",".to_vec(), &rs, false);
    ch.send_msg(b"\n".to_vec());
    let (out, completed) = consume_tokens(&ch.tokens, &Vec::new(), &Vec::new());
    assert!(completed);
    assert_eq!(out, b"a,[b],c\n".to_vec());
}

#[test]
fn solid_mode_one_run_per_selected_run() {
    // a run of consecutive selected characters is one subprocess
    // invocation, not one per character
    let rs = vec![Range { low: 2, high: 4 }];
    let mut ch = PipeIntercepter::start_solid_output(b'\n', false, Vec::new(), Vec::new());
    char_proc(&mut ch, &b"abcdef".to_vec(), &rs, false);
    let solids: Vec<&Token> = ch
        .tokens
        .iter()
        .filter(|t| matches!(t, Token::Solid(_)))
        .collect();
    assert_eq!(solids.len(), 1);
    assert!(matches!(&solids[0], Token::Solid(v) if v == &b"bcd".to_vec()));
    let runs = vec![b"BCD".to_vec()];
    let (out, completed) = consume_tokens(&ch.tokens, &Vec::new(), &runs);
    assert!(completed);
    assert_eq!(out, b"aBCDef".to_vec());
}

#[test]
fn exhausted_pipe_keeps_flushed_output() {
    // a read signal with no unit left models the subprocess closing its
    // stdout early: what was written stays, and the run is not complete
    let tokens = vec![
        Token::Channel(b"x".to_vec()),
        Token::Piped,
        Token::Channel(b"y".to_vec()),
    ];
    let (out, completed) = consume_tokens(&tokens, &Vec::new(), &Vec::new());
    assert!(!completed);
    assert_eq!(out, b"x".to_vec());
}

#[test]
fn regex_line_mode_routes_matching_lines() {
    let re = regex::bytes::Regex::new("2").unwrap();
    let mut ch = PipeIntercepter::start_output(b'\n', false, Vec::new(), Vec::new());
    let eol = b"\n".to_vec();
    regex_line_proc(&mut ch, &b"12".to_vec(), &eol, &re, false);
    regex_line_proc(&mut ch, &b"34".to_vec(), &eol, &re, false);
    ch.send_eof();
    assert_eq!(ch.pipe_bytes, b"12\n".to_vec());
    let units = vec![b"12!".to_vec()];
    let (out, completed) = consume_tokens(&ch.tokens, &units, &Vec::new());
    assert!(completed);
    assert_eq!(out, b"12!\n34\n".to_vec());
}

#[test]
fn regex_line_mode_inverted() {
    let re = regex::bytes::Regex::new("2").unwrap();
    let mut ch = PipeIntercepter::start_output(b'\n', false, Vec::new(), Vec::new());
    let eol = b"\n".to_vec();
    regex_line_proc(&mut ch, &b"12".to_vec(), &eol, &re, true);
    regex_line_proc(&mut ch, &b"34".to_vec(), &eol, &re, true);
    assert_eq!(ch.pipe_bytes, b"34\n".to_vec());
}

#[test]
fn field_pattern_mode_whitespace_delimiter() {
    let re = regex::bytes::Regex::new(r"\s+").unwrap();
    let rs = vec![Range { low: 2, high: 2 }];
    let mut ch = PipeIntercepter::start_output(b'\n', true, b"<".to_vec(), b">".to_vec());
    field_regex_proc(&mut ch, &b"10  20 30".to_vec(), &re, &rs, false);
    let (out, completed) = consume_tokens(&ch.tokens, &Vec::new(), &Vec::new());
    assert!(completed);
    assert_eq!(out, b"10  <20> 30".to_vec());
}

#[test]
fn pattern_inverted_routes_unmatched_text() {
    let re = regex::bytes::Regex::new("o").unwrap();
    let mut ch = PipeIntercepter::start_output(b'\n', false, Vec::new(), Vec::new());
    regex_proc(&mut ch, &b"hello world".to_vec(), &re, true);
    assert_eq!(ch.pipe_bytes, b"hell\n w\nrld\n".to_vec());
}
