use spiral_rsvp::config::Easing;
use spiral_rsvp::content_parser::{parse_script, ScriptBlock, ScriptError};

fn parse_ok(src: &str) -> Vec<ScriptBlock> {
    match parse_script(src) {
        Ok(bs) => bs,
        Err(e) => panic!("unexpected error: {}", e.message()),
    }
}

#[test]
fn paragraphs_become_blocks() {
    let bs = parse_ok("@wpm 300\nHello world\n\nSecond paragraph\n");
    assert_eq!(bs.len(), 2);
    assert_eq!(bs[0].text, "Hello world");
    assert_eq!(bs[1].text, "Second paragraph");
    assert_eq!(bs[0].wpm_from, "300");
    assert_eq!(bs[0].wpm_to, "300");
    assert!(bs[0].easing.is_none());
    assert!(bs[0].scale.is_none());
    assert!(bs[0].flash.is_none());
    assert!(bs[0].binaural.is_none());
}

#[test]
fn continuation_lines_join_with_a_space() {
    let bs = parse_ok("@wpm 250\n  first line  \n\tsecond line\n");
    assert_eq!(bs.len(), 1);
    assert_eq!(bs[0].text, "first line second line");
}

#[test]
fn comments_are_skipped_and_do_not_end_a_paragraph() {
    let bs = parse_ok("# header\n@wpm 300\none\n# a note\ntwo\n");
    assert_eq!(bs.len(), 1);
    assert_eq!(bs[0].text, "one two");
}

#[test]
fn settings_carry_forward_until_overridden() {
    let src = "@wpm 200 -> 400\n@easing linear\n@scale 1.5\nfirst\n\n@wpm 500\nsecond\n";
    let bs = parse_ok(src);
    assert_eq!(bs.len(), 2);
    assert_eq!(bs[0].wpm_from, "200");
    assert_eq!(bs[0].wpm_to, "400");
    assert_eq!(bs[0].easing, Some(Easing::Linear));
    assert_eq!(bs[0].scale.as_deref(), Some("1.5"));
    assert_eq!(bs[1].wpm_from, "500");
    assert_eq!(bs[1].wpm_to, "500");
    assert_eq!(bs[1].easing, Some(Easing::Linear));
    assert_eq!(bs[1].scale.as_deref(), Some("1.5"));
}

#[test]
fn directive_between_lines_applies_to_the_whole_paragraph() {
    let bs = parse_ok("@wpm 300\nhello\n@wpm 400\nworld\n");
    assert_eq!(bs.len(), 1);
    assert_eq!(bs[0].text, "hello world");
    assert_eq!(bs[0].wpm_from, "400");
}

#[test]
fn easing_instant_and_crlf_lines() {
    let bs = parse_ok("@wpm 120\r\n@easing instant\r\nword\r\n");
    assert_eq!(bs.len(), 1);
    assert_eq!(bs[0].text, "word");
    assert_eq!(bs[0].easing, Some(Easing::Instant));
}

#[test]
fn empty_script_has_no_blocks() {
    assert!(parse_ok("").is_empty());
    assert!(parse_ok("\n\n# only comments\n@wpm 300\n").is_empty());
}

#[test]
fn number_syntax_follows_float_parsing() {
    for ok in ["1e3", ".5", "5.", "+2.5E-1", "inf", "-Infinity", "NaN", "007"] {
        let src = format!("@wpm {}\nx\n", ok);
        let bs = parse_ok(&src);
        assert_eq!(bs[0].wpm_from, ok);
        assert!(ok.parse::<f32>().is_ok());
    }
    for bad in ["1e", ".", "abc", "1_0", "0x10", "+", "1.2.3", "e5"] {
        let src = format!("@wpm {}\nx\n", bad);
        match parse_script(&src) {
            Err(ScriptError::InvalidWpm(0, s)) => assert_eq!(s, bad),
            _ => panic!("{} should be refused", bad),
        }
        assert!(bad.parse::<f32>().is_err());
    }
}

#[test]
fn wpm_ramp_with_bad_end_is_refused() {
    match parse_script("@wpm 200 -> fast\nx\n") {
        Err(ScriptError::InvalidWpm(0, s)) => assert_eq!(s, "200 -> fast"),
        _ => panic!("expected InvalidWpm"),
    }
}

#[test]
fn text_without_wpm_is_refused_at_its_first_line() {
    match parse_script("# c\n\nfirst line\nsecond line\n") {
        Err(e) => {
            assert!(matches!(e, ScriptError::NoWpmDefined(2)));
            assert_eq!(e.message(), "Line 2: text block has no @wpm defined");
        }
        Ok(_) => panic!("expected NoWpmDefined"),
    }
}

#[test]
fn unknown_directive_reports_the_line() {
    match parse_script("@wpm 300\n  @speed 3  \n") {
        Err(e) => {
            assert!(matches!(&e, ScriptError::UnknownDirective(1, s) if s == "@speed 3"));
            assert_eq!(e.message(), "Line 1: unknown directive '@speed 3'");
        }
        Ok(_) => panic!("expected UnknownDirective"),
    }
}

#[test]
fn invalid_easing_and_scale() {
    match parse_script("@easing bouncy\n") {
        Err(e) => {
            assert!(matches!(&e, ScriptError::InvalidEasing(0, s) if s == "bouncy"));
            assert_eq!(e.message(), "Line 0: invalid @easing value 'bouncy'");
        }
        Ok(_) => panic!("expected InvalidEasing"),
    }
    match parse_script("\n@scale big\n") {
        Err(e) => {
            assert!(matches!(&e, ScriptError::InvalidScale(1, s) if s == "big"));
            assert_eq!(e.message(), "Line 1: invalid @scale value 'big'");
        }
        Ok(_) => panic!("expected InvalidScale"),
    }
    match parse_script("@wpm\n") {
        Err(e) => {
            assert!(matches!(&e, ScriptError::InvalidWpm(0, s) if s.is_empty()));
            assert_eq!(e.message(), "Line 0: invalid @wpm value ''");
        }
        Ok(_) => panic!("expected InvalidWpm"),
    }
}

#[test]
fn flash_colors() {
    let bs = parse_ok("@wpm 300\n@flash color=255,0,0 bgColor=1,2,3 other=9\nx\n");
    let f = bs[0].flash.as_ref().expect("flash");
    let a = f.accent_color.as_ref().expect("accent");
    assert_eq!((a.red.as_str(), a.green.as_str(), a.blue.as_str()), ("255", "0", "0"));
    let b = f.bg_color.as_ref().expect("bg");
    assert_eq!((b.red.as_str(), b.green.as_str(), b.blue.as_str()), ("1", "2", "3"));

    let bs = parse_ok("@wpm 300\n@flash\nx\n");
    let f = bs[0].flash.as_ref().expect("flash");
    assert!(f.accent_color.is_none() && f.bg_color.is_none());
}

#[test]
fn flash_errors() {
    match parse_script("@flash color=1,2\n") {
        Err(e) => {
            assert!(matches!(&e, ScriptError::InvalidFlash(0, s) if s == "expected 3 components, got 2"));
            assert_eq!(e.message(), "Line 0: invalid @flash defined: 'expected 3 components, got 2'");
        }
        Ok(_) => panic!("expected InvalidFlash"),
    }
    match parse_script("@flash color=255, 0,0\n") {
        Err(ScriptError::InvalidFlash(0, s)) => assert_eq!(s, "expected 3 components, got 2"),
        _ => panic!("a space splits the argument"),
    }
    match parse_script("@flash bgColor=1,x,3\n") {
        Err(ScriptError::InvalidFlash(0, s)) => assert_eq!(s, "invalid green component 'x'"),
        _ => panic!("expected InvalidFlash"),
    }
    match parse_script("@flash color=r,2,3\n") {
        Err(ScriptError::InvalidFlash(0, s)) => assert_eq!(s, "invalid red component 'r'"),
        _ => panic!("expected InvalidFlash"),
    }
    match parse_script("@flash color=1,2,\n") {
        Err(ScriptError::InvalidFlash(0, s)) => assert_eq!(s, "invalid blue component ''"),
        _ => panic!("expected InvalidFlash"),
    }
    match parse_script("@flash color=1,2,3,4,5,6,7,8,9,10,11\n") {
        Err(ScriptError::InvalidFlash(0, s)) => assert_eq!(s, "expected 3 components, got 11"),
        _ => panic!("expected InvalidFlash"),
    }
}

#[test]
fn binaural_settings() {
    let bs = parse_ok("@wpm 300\n@binaural carrier=210 volume=0.5\nx\n\n@binaural off\ny\n\n@binaural\nz\n");
    assert_eq!(bs.len(), 3);
    let b = bs[0].binaural.as_ref().expect("binaural");
    assert_eq!(b.carrier_hz.as_deref(), Some("210"));
    assert_eq!(b.volume.as_deref(), Some("0.5"));
    assert!(b.beat_hz.is_none() && b.drone_hz.is_none());
    assert!(bs[1].binaural.is_none());
    let b = bs[2].binaural.as_ref().expect("theta preset");
    assert!(b.carrier_hz.is_none() && b.beat_hz.is_none() && b.drone_hz.is_none() && b.volume.is_none());
}

#[test]
fn binaural_errors() {
    match parse_script("@binaural carrier=200 pitch=3\n") {
        Err(e) => {
            assert!(matches!(&e, ScriptError::ParseError(0, s) if s == "unknown @binaural parameter 'pitch=3'"));
            assert_eq!(e.message(), "Line 0: unknown @binaural parameter 'pitch=3'");
        }
        Ok(_) => panic!("expected ParseError"),
    }
    match parse_script("@binaural beat=fast\n") {
        Err(ScriptError::ParseError(0, s)) => assert_eq!(s, "'fast' is not a valid number"),
        _ => panic!("expected ParseError"),
    }
}

#[test]
fn number_syntax_agrees_with_f32_parsing() {
    let samples = [
        "0", "1", "12.5", "1e+5", "1E-0", "-.5", "+.e1", "infinityx", "Inf", "INFINITY", "nAn",
        "-nan", "1e5.0", "\u{661}", "1.e3", ".e3", "+-1", "--1", "1e", "1e+", "e", "in", "nana",
        "0.000001", "99999999999999999999999999999999999999999", "1e99999", "+inf", "-0",
    ];
    for s in samples {
        let src = format!("@scale {}\n", s);
        let accepted = parse_script(&src).is_ok();
        assert_eq!(accepted, s.parse::<f32>().is_ok(), "sample {:?}", s);
    }
}

#[test]
fn parsed_numbers_and_text_are_well_formed() {
    let src = "@wpm 1e2 -> +3.5\n@scale .75\n@flash color=1,2,3\n@binaural volume=0.1\n  a  b  \n\n c \n";
    let bs = parse_ok(src);
    assert_eq!(bs.len(), 2);
    for b in &bs {
        assert!(!b.text.is_empty());
        assert_eq!(b.text.trim(), b.text);
        assert!(b.wpm_from.parse::<f32>().is_ok());
        assert!(b.wpm_to.parse::<f32>().is_ok());
        assert!(b.scale.as_deref().map_or(true, |x| x.parse::<f32>().is_ok()));
    }
    assert_eq!(bs[0].text, "a  b");
}
