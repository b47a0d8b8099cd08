use osu_dump::cli::api_limit_parser;
use osu_dump::cli::parse_u16;
use osu_dump::cli::BeatmapMode;
use osu_dump::cli::Cli;
use osu_dump::cli::Commands;
use osu_dump::cli::OutputType;
use osu_dump::cli::RequestLimit;

const FORMAT_MESSAGE: &str = "Invalid API Limit format, use the format \"N:M\" where N is the maximum number of calls in M seconds. Use 0 to represent \"no limits\".";

fn limit_of(text: &str) -> (u16, u16) {
    match api_limit_parser(text) {
        Ok(limit) => (limit.requests, limit.timeframe_secs),
        Err(message) => panic!("{} was refused: {}", text, message),
    }
}

fn refusal_of(text: &str) -> String {
    match api_limit_parser(text) {
        Ok(limit) => panic!("{} was read as {:?}", text, limit),
        Err(message) => message,
    }
}

#[test]
fn limit_is_read_from_two_numbers() {
    assert_eq!(limit_of("50:60"), (50, 60));
    assert_eq!(limit_of("0:0"), (0, 0));
    assert_eq!(limit_of("0:60"), (0, 60));
    assert_eq!(limit_of("1:65535"), (1, 65535));
    assert_eq!(limit_of("65535:1"), (65535, 1));
}

#[test]
fn limit_numbers_may_have_a_plus_sign_and_leading_zeros() {
    assert_eq!(limit_of("+5:07"), (5, 7));
    assert_eq!(limit_of("000000000000000000050:+000060"), (50, 60));
    assert_eq!(limit_of("+0:+0"), (0, 0));
}

#[test]
fn limit_without_one_colon_is_refused() {
    assert_eq!(refusal_of(""), FORMAT_MESSAGE);
    assert_eq!(refusal_of("50"), FORMAT_MESSAGE);
    assert_eq!(refusal_of("50-60"), FORMAT_MESSAGE);
    assert_eq!(refusal_of("1:2:3"), FORMAT_MESSAGE);
    assert_eq!(refusal_of("::"), FORMAT_MESSAGE);
    assert_eq!(refusal_of("a:b:c"), FORMAT_MESSAGE);
}

#[test]
fn limit_part_that_is_no_number_is_named() {
    assert_eq!(refusal_of("a:5"), "\"a\" is not a valid number");
    assert_eq!(refusal_of("5:b"), "\"b\" is not a valid number");
    assert_eq!(refusal_of("a:b"), "\"a\" is not a valid number");
    assert_eq!(refusal_of(":"), "\"\" is not a valid number");
    assert_eq!(refusal_of("5:"), "\"\" is not a valid number");
    assert_eq!(refusal_of(":5"), "\"\" is not a valid number");
    assert_eq!(refusal_of("-1:5"), "\"-1\" is not a valid number");
    assert_eq!(refusal_of("5: 6"), "\" 6\" is not a valid number");
    assert_eq!(refusal_of("5 :6"), "\"5 \" is not a valid number");
    assert_eq!(refusal_of("+:6"), "\"+\" is not a valid number");
    assert_eq!(refusal_of("++1:6"), "\"++1\" is not a valid number");
    assert_eq!(refusal_of("1.5:6"), "\"1.5\" is not a valid number");
    assert_eq!(refusal_of("0x10:6"), "\"0x10\" is not a valid number");
    assert_eq!(refusal_of("５:6"), "\"５\" is not a valid number");
    assert_eq!(refusal_of("5:é"), "\"é\" is not a valid number");
}

#[test]
fn limit_number_beyond_sixteen_bits_is_refused() {
    assert_eq!(refusal_of("65536:1"), "\"65536\" is not a valid number");
    assert_eq!(refusal_of("1:65536"), "\"65536\" is not a valid number");
    assert_eq!(refusal_of("1:99999999999999999999999999"), "\"99999999999999999999999999\" is not a valid number");
    assert_eq!(refusal_of("4294967296:1"), "\"4294967296\" is not a valid number");
    assert_eq!(refusal_of("4294967297:1"), "\"4294967297\" is not a valid number");
    assert_eq!(refusal_of("42949672960:1"), "\"42949672960\" is not a valid number");
}

#[test]
fn numbers_of_sixteen_bits_are_read_as_std_reads_them() {
    let texts = [
        "", "0", "7", "+7", "-7", "-0", "+", "-", "007", "65535", "65536", "+65535", "065535",
        "655350", "12a", "a12", " 12", "12 ", "1_000", "1e3", "٣", "+-1", "99999", "100000000000",
    ];
    for text in texts {
        assert_eq!(parse_u16(text), text.parse::<u16>().ok(), "for {:?}", text);
    }
    for number in [0u16, 1, 9, 10, 255, 256, 9999, 10000, 65534, 65535] {
        assert_eq!(parse_u16(&number.to_string()), Some(number));
    }
}

#[test]
fn request_of_a_run_holds_what_was_asked_for() {
    let cli = Cli {
        user_id: "123".to_string(),
        verbose: true,
        command: Commands::MostPlayed { limit: Some(5), modes: vec![BeatmapMode::Mania] },
        output: Some(OutputType::Json),
        api_url_base: "https://osu.ppy.sh".to_string(),
        request_limit: RequestLimit { requests: 50, timeframe_secs: 60 },
    };
    assert_eq!(cli.user_id, "123");
    assert!(cli.verbose);
    assert_eq!(cli.output, Some(OutputType::Json));
    assert_eq!(cli.request_limit.requests, 50);
    assert_eq!(cli.request_limit.timeframe_secs, 60);
    match cli.command {
        Commands::MostPlayed { limit, modes } => {
            assert_eq!(limit, Some(5));
            assert_eq!(modes, vec![BeatmapMode::Mania]);
        }
    }
}
