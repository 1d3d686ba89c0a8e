use tilemachine::custom_script::ImageDataCollection;
use tilemachine::engine::{
    clamp_channel, quantize_pixel, run_tile, CompileOutcome, EvalOutcome,
};
use tilemachine::utils::{ImageData, ScriptError};

fn bits(values: &[f64]) -> Vec<u64> {
    values.iter().map(|v| v.to_bits()).collect()
}

fn floats(words: &[u64]) -> Vec<f64> {
    words.iter().map(|w| f64::from_bits(*w)).collect()
}

/// Plays the scripting runtime's role for `return [3 * rgb[1], rgb[0], dsm[0]]`.
fn eval_scenario_expression(args: &[Vec<u64>]) -> EvalOutcome {
    let rgb = floats(&args[0]);
    let dsm = floats(&args[1]);
    let ret = [3.0 * rgb[1], rgb[0], dsm[0]];
    EvalOutcome::Returned(ret.iter().map(|v| *v as i64).collect())
}

#[test]
fn test_execute_on_tile_1() {
    let mut coll = ImageDataCollection::<u64>::new(2);
    coll.push_image(
        "rgb".to_owned(),
        ImageData::<u64>::from_vec(2, 2, 2, bits(&[0.0, 5.0, 4.0, 1.0, 3.0, 2.0, 7.0, 8.0])),
    );
    coll.push_image(
        "dsm".to_owned(),
        ImageData::<u64>::from_vec(2, 2, 1, bits(&[42.0, 43.0, 44.0, 45.0])),
    );
    assert_eq!(coll.names(), vec!["rgb".to_owned(), "dsm".to_owned()]);

    let mut outcomes: Vec<EvalOutcome> = Vec::new();
    for i in 0..2 {
        for j in 0..2 {
            let args = coll.pixel_args(i, j);
            outcomes.push(eval_scenario_expression(&args));
        }
    }
    let out_image = run_tile(2, &CompileOutcome::Compiled, &outcomes).unwrap();
    assert!(out_image.width == 2);
    assert!(out_image.height == 2);
    assert!(out_image.pixel_data(0, 0)[0] == 15);
    assert!(out_image.pixel_data(0, 0)[1] == 0);
    assert!(out_image.pixel_data(0, 0)[2] == 42);
    assert!(out_image.pixel_data(1, 1)[0] == 24);
    assert!(out_image.pixel_data(1, 1)[1] == 7);
    assert!(out_image.pixel_data(1, 1)[2] == 45);
}

#[test]
fn test_clamping_saturates_both_ends() {
    assert_eq!(clamp_channel(300), 255);
    assert_eq!(clamp_channel(-5), 0);
    assert_eq!(clamp_channel(255.4f64 as i64), 255);
    assert_eq!(clamp_channel(0), 0);
    assert_eq!(clamp_channel(255), 255);
    assert_eq!(clamp_channel(128), 128);
}

#[test]
fn test_engine_output_is_clamped() {
    let outcomes = vec![EvalOutcome::Returned(vec![300, -5, 255, 9999])];
    let img = run_tile(1, &CompileOutcome::Compiled, &outcomes).unwrap();
    assert_eq!(img.pixel_data(0, 0), &[255, 0, 255, 255]);
}

#[test]
fn test_missing_channels_read_as_zero() {
    let outcomes = vec![EvalOutcome::Returned(vec![7])];
    let img = run_tile(1, &CompileOutcome::Compiled, &outcomes).unwrap();
    assert_eq!(img.pixel_data(0, 0), &[7, 0, 0, 0]);
}

#[test]
fn test_compilation_failure_surfaces_diagnostic() {
    let diagnostic = "SyntaxError: unexpected token".to_owned();
    let r = run_tile(2, &CompileOutcome::Failed(diagnostic), &Vec::new());
    match r {
        Err(ScriptError::CompilationError(msg)) => assert!(!msg.is_empty()),
        _ => panic!("expected a compilation error"),
    }
}

#[test]
fn test_runtime_failure_aborts_whole_tile() {
    // Only one pixel of the four raises; the whole tile must fail, with no
    // partial image.
    let mut outcomes: Vec<EvalOutcome> = Vec::new();
    for k in 0..4 {
        if k == 2 {
            outcomes.push(EvalOutcome::Raised("script:1: division fault".to_owned()));
        } else {
            outcomes.push(EvalOutcome::Returned(vec![1, 2, 3, 4]));
        }
    }
    let r = run_tile(2, &CompileOutcome::Compiled, &outcomes);
    match r {
        Err(ScriptError::RuntimeError(msg)) => assert_eq!(msg, "script:1: division fault"),
        _ => panic!("expected a runtime error"),
    }
}

#[test]
fn test_invalid_return_shape() {
    // A value that is not a sequence fails the pixel, and the tile.
    let outcomes = vec![
        EvalOutcome::Returned(vec![1, 2, 3, 4]),
        EvalOutcome::NotASequence,
        EvalOutcome::Returned(vec![1, 2, 3, 4]),
        EvalOutcome::Returned(vec![1, 2, 3, 4]),
    ];
    let r = run_tile(2, &CompileOutcome::Compiled, &outcomes);
    assert!(matches!(r, Err(ScriptError::InvalidReturnType)));
    assert!(matches!(
        quantize_pixel(&EvalOutcome::NotASequence),
        Err(ScriptError::InvalidReturnType)
    ));
}

#[test]
fn test_last_failure_wins() {
    let outcomes = vec![
        EvalOutcome::Raised("first".to_owned()),
        EvalOutcome::NotASequence,
        EvalOutcome::Raised("last".to_owned()),
        EvalOutcome::Returned(vec![0, 0, 0, 0]),
    ];
    let r = run_tile(2, &CompileOutcome::Compiled, &outcomes);
    match r {
        Err(ScriptError::RuntimeError(msg)) => assert_eq!(msg, "last"),
        _ => panic!("expected the last runtime error"),
    }
}

#[test]
fn test_evaluation_is_idempotent() {
    let mut coll = ImageDataCollection::<u64>::new(2);
    coll.push_image(
        "rgb".to_owned(),
        ImageData::<u64>::from_vec(2, 2, 2, bits(&[0.0, 5.0, 4.0, 1.0, 3.0, 2.0, 7.0, 8.0])),
    );
    coll.push_image(
        "dsm".to_owned(),
        ImageData::<u64>::from_vec(2, 2, 1, bits(&[42.0, 43.0, 44.0, 45.0])),
    );
    let run = |coll: &ImageDataCollection<u64>| -> Vec<u8> {
        let mut outcomes: Vec<EvalOutcome> = Vec::new();
        for i in 0..2 {
            for j in 0..2 {
                let args = coll.pixel_args(i, j);
                outcomes.push(eval_scenario_expression(&args));
            }
        }
        run_tile(2, &CompileOutcome::Compiled, &outcomes)
            .unwrap()
            .data
    };
    let first = run(&coll);
    let second = run(&coll);
    assert_eq!(first, second);
}

#[test]
fn test_pixel_args_follow_declaration_order() {
    let mut coll = ImageDataCollection::<u64>::new(1);
    coll.push_image("b".to_owned(), ImageData::<u64>::from_vec(1, 1, 1, vec![10]));
    coll.push_image("a".to_owned(), ImageData::<u64>::from_vec(1, 1, 2, vec![20, 21]));
    let args = coll.pixel_args(0, 0);
    assert_eq!(args.len(), 2);
    assert_eq!(args[0], vec![10]);
    assert_eq!(args[1], vec![20, 21]);
    assert_eq!(coll.names(), vec!["b".to_owned(), "a".to_owned()]);
}

#[test]
fn test_underline_marks_failing_span() {
    let out = tilemachine::engine::underline_source_line("return [x / 0]", 8, 13);
    assert_eq!(out, "at line: \nreturn [x / 0]\n        ^^^^^\n");
}

#[test]
fn test_underline_with_empty_span() {
    let out = tilemachine::engine::underline_source_line("x", 5, 2);
    assert_eq!(out, "at line: \nx\n     \n");
}

#[test]
fn test_exception_report_format() {
    let out = tilemachine::engine::exception_report(3, "ReferenceError: y is not defined", "return [y]", 8, 9);
    assert_eq!(
        out,
        "script:3: ReferenceError: y is not defined\nat line: \nreturn [y]\n        ^\n"
    );
}

#[test]
fn test_exception_report_line_zero() {
    let out = tilemachine::engine::exception_report(0, "boom", "", 0, 0);
    assert_eq!(out, "script:0: boom\nat line: \n\n\n");
}
