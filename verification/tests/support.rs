//! Configuration parsing, prompts, command verdicts, paths, output helpers
//! and the text utilities.

use ferris_lab::config::{merged_output_flag, ollama_enabled_flag, parse_peer_addresses, parse_port};
use ferris_lab::executor::{command_verdict, creation_verdict, i32_string, Executor, ExecutorError};
use ferris_lab::logmux::{card_geometry, card_width, pad_to_width, parse_arg, split_word, terminal_width_choice, trim_empty_lines, update_sgr_state, visible_width, wrap_line_words};
use ferris_lab::ollama::{generate_url, tags_url, GenerateResponse};
use ferris_lab::output::{agent_label, log_key, u64_string, RecentMessages};
use ferris_lab::prompts::{peer_response_prompt, weather_summary_prompt};
use ferris_lab::strutil::{str_eq, str_lt, trim_str};
use ferris_lab::textutil::{sanitize_generated_code, sort_numbers, split_lines};
use ferris_lab::writer::{FileWriter, WriterError};

#[test]
fn parses_ports_like_the_environment_does() {
    assert_eq!(parse_port("8080", 8080), 8080);
    assert_eq!(parse_port("19001", 8080), 19001);
    assert_eq!(parse_port("+443", 8080), 443);
    assert_eq!(parse_port("65535", 8080), 65535);
    assert_eq!(parse_port("65536", 8080), 8080);
    assert_eq!(parse_port("", 8080), 8080);
    assert_eq!(parse_port("+", 8080), 8080);
    assert_eq!(parse_port("80x", 8080), 8080);
    assert_eq!(parse_port("-1", 8080), 8080);
    assert_eq!(parse_port("007", 8080), 7);
}

#[test]
fn splits_and_trims_peer_addresses() {
    assert_eq!(
        parse_peer_addresses("ws://a:1/ws, ws://b:2/ws"),
        vec!["ws://a:1/ws".to_string(), "ws://b:2/ws".to_string()]
    );
    assert_eq!(parse_peer_addresses(""), Vec::<String>::new());
    assert_eq!(parse_peer_addresses(" , ,, "), Vec::<String>::new());
    assert_eq!(parse_peer_addresses("  one  "), vec!["one".to_string()]);
    assert_eq!(
        parse_peer_addresses("a,,b,"),
        vec!["a".to_string(), "b".to_string()]
    );
}

#[test]
fn backend_flag_is_everything_but_false() {
    assert!(ollama_enabled_flag("true"));
    assert!(ollama_enabled_flag("TRUE"));
    assert!(ollama_enabled_flag("yes"));
    assert!(ollama_enabled_flag(""));
    assert!(!ollama_enabled_flag("false"));
    assert!(!ollama_enabled_flag("False"));
    assert!(!ollama_enabled_flag("FALSE"));
}

#[test]
fn merged_output_flag_accepts_three_spellings() {
    assert!(merged_output_flag("1"));
    assert!(merged_output_flag("true"));
    assert!(merged_output_flag("Yes"));
    assert!(!merged_output_flag("0"));
    assert!(!merged_output_flag("no"));
    assert!(!merged_output_flag(""));
}

#[test]
fn prompts_name_the_parties_and_the_content() {
    assert_eq!(
        weather_summary_prompt("City: sunny +20"),
        "Based on this weather data: City: sunny +20\n\nDescribe the weather in one short sentence - accurately based on the data."
    );
    let p = peer_response_prompt("agent-1", "agent-2", "hello there");
    assert_eq!(
        p,
        "You are an AI agent named agent-1. Another AI agent named agent-2 just said: \"hello there\"\n\nGenerate a brief, friendly response (under 25 words). Be conversational but concise. If this feels like a closing message, say a brief goodbye."
    );
}

#[test]
fn command_verdicts_pass_output_through_or_name_the_failure() {
    assert_eq!(
        command_verdict(true, Some(0), "built\n".to_string(), "".to_string()),
        Ok("built\n".to_string())
    );
    assert_eq!(
        command_verdict(false, Some(101), "".to_string(), "boom".to_string()),
        Err(ExecutorError::CommandFailed { status: 101, stderr: "boom".to_string() })
    );
    assert_eq!(
        command_verdict(false, None, "".to_string(), "killed".to_string()),
        Err(ExecutorError::CommandFailed { status: -1, stderr: "killed".to_string() })
    );
    assert_eq!(
        creation_verdict("generated_add", true, Some(0), "".to_string()),
        Ok("Created project: generated_add".to_string())
    );
}

#[test]
fn executor_errors_read_like_sentences() {
    let e = ExecutorError::Io("no such file".to_string());
    assert_eq!(e.message(), "Command failed to execute: no such file");
    let e = ExecutorError::CommandFailed { status: -1, stderr: "linker".to_string() };
    assert_eq!(e.message(), "Command failed with status -1: linker");
    assert_eq!(i32_string(i32::MIN), "-2147483648");
    assert_eq!(i32_string(0), "0");
    let w = WriterError::Io("denied".to_string());
    assert_eq!(w.message(), "Failed to write file: denied");
}

#[test]
fn workspace_paths_join_below_the_workspace() {
    let w = FileWriter::new("./workspace".to_string());
    assert_eq!(w.full_path("generated_add/src/main.rs"), "./workspace/generated_add/src/main.rs");
    assert_eq!(w.full_path("/etc/passwd"), "/etc/passwd");
    let e = Executor::new("./workspace".to_string());
    assert_eq!(e.workspace(), "./workspace");
}

#[test]
fn backend_urls_follow_the_host() {
    assert_eq!(generate_url("http://localhost:11434"), "http://localhost:11434/api/generate");
    assert_eq!(tags_url("http://localhost:11434"), "http://localhost:11434/api/tags");
    let reply = GenerateResponse { response: "hi".to_string(), done: true };
    assert!(reply.done);
    assert_eq!(reply.response, "hi");
}

#[test]
fn labels_and_keys_and_numbers_format_exactly() {
    assert_eq!(agent_label("agent-1", true), Some("[agent-1]".to_string()));
    assert_eq!(agent_label("agent-1", false), None);
    assert_eq!(log_key("send:text:", "agent-1", "hello"), "send:text:agent-1:hello");
    assert_eq!(u64_string(0), "0");
    assert_eq!(u64_string(1000000), "1000000");
    assert_eq!(u64_string(u64::MAX), "18446744073709551615");
}

#[test]
fn duplicate_lines_are_suppressed_once_seen() {
    let mut recent = RecentMessages::new();
    assert!(!recent.is_duplicate("send:text:agent-1:hi"));
    assert!(recent.is_duplicate("send:text:agent-1:hi"));
    assert!(!recent.is_duplicate("recv:text:agent-1:hi"));
}

#[test]
fn string_helpers_compare_by_characters() {
    assert!(str_eq("agent-1", "agent-1"));
    assert!(!str_eq("agent-1", "agent-2"));
    assert!(str_lt("agent-1", "agent-2"));
    assert!(!str_lt("agent-2", "agent-1"));
    assert!(str_lt("agent", "agent-1"));
    assert_eq!(trim_str("  padded \n"), "padded");
    assert_eq!(trim_str("\u{a0}nbsp\u{a0}"), "nbsp");
    assert_eq!(trim_str("   "), "");
}

#[test]
fn sorts_numbers_ascending() {
    assert_eq!(sort_numbers(vec![3, 1, 2]), vec![1, 2, 3]);
    assert_eq!(sort_numbers(vec![5, -1, 5, 0]), vec![-1, 0, 5, 5]);
    assert_eq!(sort_numbers(Vec::new()), Vec::<i32>::new());
}

#[test]
fn splits_lines_like_the_agent_reads_them() {
    assert_eq!(split_lines("a\nb"), vec!["a".to_string(), "b".to_string()]);
    assert_eq!(split_lines("a\nb\n"), vec!["a".to_string(), "b".to_string()]);
    assert_eq!(split_lines("a\r\nb\r\n"), vec!["a".to_string(), "b".to_string()]);
    assert_eq!(split_lines("a\n\nb"), vec!["a".to_string(), "".to_string(), "b".to_string()]);
    assert_eq!(split_lines(""), vec!["".to_string()]);
}

#[test]
fn sanitize_extracts_the_first_fenced_block() {
    let generated = "Here you go:\n```rust\nfn main() {}\n```\nEnjoy!";
    assert_eq!(sanitize_generated_code(generated), "fn main() {}");
    let bare = "  fn main() {}\n";
    assert_eq!(sanitize_generated_code(bare), "fn main() {}");
    let empty_block = "```rust\n```";
    assert_eq!(sanitize_generated_code(empty_block), "```rust\n```");
    let unterminated = "```\nlet x = 1;\nlet y = 2;";
    assert_eq!(sanitize_generated_code(unterminated), "let x = 1;\nlet y = 2;");
    let indented_fence = "intro\n   ```\ncode\n```";
    assert_eq!(sanitize_generated_code(indented_fence), "code");
}

#[test]
fn visible_width_ignores_escapes_and_counts_columns() {
    assert_eq!(visible_width("hello"), 5);
    assert_eq!(visible_width("\u{1b}[31mred\u{1b}[0m"), 3);
    assert_eq!(visible_width(""), 0);
    // A wide character counts two columns.
    assert_eq!(visible_width("\u{ff28}"), 2);
}

#[test]
fn padding_fills_to_the_target_width_and_resets_colors() {
    assert_eq!(pad_to_width("ab", 5), "ab   ");
    assert_eq!(pad_to_width("abcdef", 3), "abcdef");
    assert_eq!(pad_to_width("\u{1b}[31mx", 3), "\u{1b}[31mx\u{1b}[0m  ");
    assert_eq!(pad_to_width("\u{1b}[31mx\u{1b}[0m", 3), "\u{1b}[31mx\u{1b}[0m  ");
}

#[test]
fn sgr_state_follows_color_escapes() {
    let mut active = String::new();
    update_sgr_state("\u{1b}[31m", &mut active);
    assert_eq!(active, "\u{1b}[31m");
    update_sgr_state("\u{1b}[0m", &mut active);
    assert_eq!(active, "");
    update_sgr_state("\u{1b}[1;32m", &mut active);
    assert_eq!(active, "\u{1b}[1;32m");
    update_sgr_state("\u{1b}[1;0m", &mut active);
    assert_eq!(active, "");
    update_sgr_state("\u{1b}[31m", &mut active);
    update_sgr_state("\u{1b}[2K", &mut active);
    assert_eq!(active, "\u{1b}[31m", "a non-color sequence changes nothing");
}

#[test]
fn multiplexer_arguments_split_at_the_first_separator() {
    assert_eq!(
        parse_arg("agent-1=/tmp/fifo"),
        Some(("agent-1".to_string(), "/tmp/fifo".to_string()))
    );
    assert_eq!(
        parse_arg("agent-1:/tmp/fifo"),
        Some(("agent-1".to_string(), "/tmp/fifo".to_string()))
    );
    assert_eq!(
        parse_arg("a=b=c"),
        Some(("a".to_string(), "b=c".to_string()))
    );
    assert_eq!(parse_arg("nopair"), None);
}

#[test]
fn blank_lines_are_trimmed_from_both_ends() {
    let lines = vec![
        "".to_string(),
        "  ".to_string(),
        "first".to_string(),
        "".to_string(),
        "last".to_string(),
        "\t".to_string(),
    ];
    assert_eq!(
        trim_empty_lines(&lines),
        vec!["first".to_string(), "".to_string(), "last".to_string()]
    );
    assert_eq!(trim_empty_lines(&vec![" ".to_string()]), Vec::<String>::new());
}

#[test]
fn long_words_break_into_bounded_chunks() {
    assert_eq!(
        split_word("abcdefgh", 3),
        vec!["abc".to_string(), "def".to_string(), "gh".to_string()]
    );
    assert_eq!(split_word("ab", 3), vec!["ab".to_string()]);
    assert_eq!(split_word("", 3), Vec::<String>::new());
    // Escapes travel with the chunk they precede and cost no width.
    assert_eq!(
        split_word("\u{1b}[31mabcd", 2),
        vec!["\u{1b}[31mab".to_string(), "cd".to_string()]
    );
}

#[test]
fn lines_wrap_at_word_boundaries() {
    assert_eq!(
        wrap_line_words("the quick brown fox", 10),
        vec!["the quick ".to_string(), "brown fox".to_string()]
    );
    assert_eq!(wrap_line_words("short", 10), vec!["short".to_string()]);
    assert_eq!(wrap_line_words("", 10), vec!["".to_string()]);
    assert_eq!(wrap_line_words("anything", 0), vec!["".to_string()]);
    // An overlong word is broken on its own lines.
    assert_eq!(
        wrap_line_words("hi abcdefgh", 4),
        vec!["hi ".to_string(), "abcd".to_string(), "efgh".to_string()]
    );
    // The active color carries into a new chunk (and the raw escape stays
    // inside the word it preceded).
    assert_eq!(
        wrap_line_words("\u{1b}[31mred words wrap here", 9),
        vec![
            "\u{1b}[31m\u{1b}[31mred words".to_string(),
            "\u{1b}[31mwrap here".to_string()
        ]
    );
}

#[test]
fn card_geometry_centers_the_title() {
    assert_eq!(card_width(Some(100)), 100);
    assert_eq!(card_width(Some(10)), 60);
    assert_eq!(card_width(None), 90);
    let (inner, left, right, content) = card_geometry(90, 16);
    assert_eq!(inner, 88);
    assert_eq!(left, 36);
    assert_eq!(right, 36);
    assert_eq!(content, 86);
    let (inner, left, right, _) = card_geometry(1, 5);
    assert_eq!((inner, left, right), (0, 0, 0));
}

#[test]
fn terminal_width_prefers_the_terminal_report() {
    assert_eq!(terminal_width_choice(Some(120), Some(80)), Some(120));
    assert_eq!(terminal_width_choice(Some(0), Some(80)), Some(80));
    assert_eq!(terminal_width_choice(None, Some(80)), Some(80));
    assert_eq!(terminal_width_choice(None, Some(0)), None);
    assert_eq!(terminal_width_choice(None, None), None);
}
