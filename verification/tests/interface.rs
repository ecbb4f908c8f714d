use f2png::desk::{
    capacity_hint, container_hint, embed_running, embed_started, is_png_extension, join_started,
    limit_in_bytes, max_pixels, password_field, plan_embed, plan_join, plan_reveal, push_log,
    reveal_running, reveal_started, EmbedForm, EmbedPlan, EmbedSummary, FileLen, Gauge, PartSource,
    Refusal, RevealForm, RevealPlan, SizeLimit, Status, UiMessage,
};
use f2png::display::{bar, fmt_size, fmt_time, format_eta, phase_share, phase_tag, size_list};
use f2png::help::{print_topic, topics};
use f2png::progress::ProgressPhase;

fn float_size(bytes: u64) -> String {
    let units = ["B", "KiB", "MiB", "GiB", "TiB"];
    let mut size = bytes as f64;
    for u in units {
        if size < 1024.0 || u == "TiB" {
            return format!("{:.2} {}", size, u);
        }
        size /= 1024.0;
    }
    unreachable!()
}

const LIMIT: SizeLimit = SizeLimit { preset: true, gib: 2, mib: 5 };

#[test]
fn sizes_are_shown_in_their_unit() {
    assert_eq!(fmt_size(0), "0.00 B");
    assert_eq!(fmt_size(1023), "1023.00 B");
    assert_eq!(fmt_size(1536), "1.50 KiB");
    assert_eq!(fmt_size(16 * 1024 * 1024), "16.00 MiB");
    assert_eq!(fmt_size(1u64 << 40), "1.00 TiB");
    assert_eq!(fmt_size(u64::MAX), "16777216.00 TiB");
}

#[test]
fn sizes_are_rounded_like_floats() {
    // Ties at the third decimal: 1.125, 1.375 and the like.
    for eighths in 0..64u64 {
        let n = 1024 + eighths * 128;
        assert_eq!(fmt_size(n), float_size(n), "{}", n);
    }
    let mut n: u64 = 99;
    for i in 0..5000 {
        n = n.wrapping_mul(6364136223846793005).wrapping_add(1442695040888963407);
        let m = n >> (i % 64);
        assert_eq!(fmt_size(m), float_size(m), "{}", m);
    }
    for n in [(1u64 << 40) - 1, (1 << 20) - 1, (1 << 53) + 1, (1 << 63) - 1] {
        assert_eq!(fmt_size(n), float_size(n), "{}", n);
    }
}

#[test]
fn sizes_for_estimates_double() {
    let sizes = size_list();
    assert_eq!(sizes.len(), 31);
    assert_eq!(sizes[0], 1024);
    assert_eq!(sizes[30], 1u64 << 40);
    assert!(sizes.windows(2).all(|w| w[1] == 2 * w[0]));
}

#[test]
fn remaining_times_take_two_units() {
    assert_eq!(format_eta(0), "0s");
    assert_eq!(format_eta(59), "59s");
    assert_eq!(format_eta(61), "1m 01s");
    assert_eq!(format_eta(3600 + 125), "1h 02m");
    assert_eq!(format_eta(86_400 * 3 + 3600 * 4), "3d 04h");
}

#[test]
fn times_take_two_units() {
    assert_eq!(fmt_time(60), "1 min 00 s");
    assert_eq!(fmt_time(3599), "59 min 59 s");
    assert_eq!(fmt_time(3600), "1 h 00 min");
    assert_eq!(fmt_time(86_399), "23 h 59 min");
    assert_eq!(fmt_time(86_400 * 10 + 3600 * 5), "10 d 05 h");
}

#[test]
fn bars_fill_up() {
    assert_eq!(bar(0), "--------------------");
    assert_eq!(bar(7), "#######-------------");
    assert_eq!(bar(20), "####################");
    assert_eq!(bar(99), "####################");
}

#[test]
fn phases_have_tags_and_shares() {
    assert_eq!(phase_tag(ProgressPhase::Prepare), "PREP");
    assert_eq!(phase_tag(ProgressPhase::Embed), "LSB");
    assert_eq!(phase_tag(ProgressPhase::Parse), "PARSE");
    assert_eq!(phase_share(ProgressPhase::Prepare, true), (0, 20));
    assert_eq!(phase_share(ProgressPhase::Encrypt, true), (20, 15));
    assert_eq!(phase_share(ProgressPhase::Embed, true), (35, 63));
    assert_eq!(phase_share(ProgressPhase::Embed, false), (20, 78));
    assert_eq!(phase_share(ProgressPhase::Save, false), (98, 2));
    assert_eq!(phase_share(ProgressPhase::Extract, false), (0, 100));
}

#[test]
fn topics_are_told() {
    let all = topics();
    assert_eq!(all.len(), 8);
    assert_eq!(all[2].0, "bpc");
    let text = print_topic(Some("lsb")).unwrap();
    assert_eq!(text, format!("[lsb]\n{}\n", all[1].1));
    let list = print_topic(None).unwrap();
    assert!(list.starts_with("Tópicos disponíveis:\n - programa\n - lsb\n"));
    assert!(list.ends_with(" - boas-praticas\n\nUsa: f2png help <tópico>\n"));
    assert_eq!(print_topic(Some("x")).unwrap_err(), "Tópico 'x' não encontrado.\n");
}

#[test]
fn hiding_is_planned() {
    let form = |file_count, has_cover, container_mode, container_split| {
        plan_embed(&EmbedForm { file_count, has_cover, container_mode, container_split, limit: LIMIT })
    };
    assert_eq!(form(0, true, true, false), Err(Refusal::NoFiles));
    assert_eq!(form(2, true, true, false), Err(Refusal::OneFileOnly));
    assert_eq!(form(1, false, false, true), Err(Refusal::NoCover));
    assert_eq!(form(1, false, true, true), Ok(EmbedPlan::Parts { max_bytes: 2 << 30 }));
    assert_eq!(form(1, false, true, false), Ok(EmbedPlan::Container));
    assert_eq!(form(1, true, false, true), Ok(EmbedPlan::Single));
    assert_eq!(form(3, true, false, false), Ok(EmbedPlan::Multi));
    assert_eq!(Refusal::NoFiles.message(), "ERRO: adiciona pelo menos um ficheiro.");
}

#[test]
fn revealing_is_planned() {
    let form = |has_stego, is_container, split_container, has_split_cover| {
        let limit = SizeLimit { preset: false, ..LIMIT };
        plan_reveal(&RevealForm { has_stego, is_container, split_container, has_split_cover, limit })
    };
    assert_eq!(form(false, true, true, true), Err(Refusal::NoStego));
    assert_eq!(form(true, true, true, false), Err(Refusal::PartsNeedCover));
    assert_eq!(form(true, false, true, true), Ok(RevealPlan::Split { max_bytes: 5 << 20 }));
    assert_eq!(form(true, true, false, false), Ok(RevealPlan::Container));
    assert_eq!(form(true, false, false, true), Ok(RevealPlan::Hidden { bpc: 2 }));
}

#[test]
fn joining_is_planned() {
    assert_eq!(plan_join(2, false), Ok(PartSource::Given));
    assert_eq!(plan_join(0, true), Ok(PartSource::Directory));
    assert_eq!(plan_join(0, false), Err(Refusal::PartsNotGiven));
    assert!(is_png_extension("png") && is_png_extension("PnG"));
    assert!(!is_png_extension("pn") && !is_png_extension("pngx") && !is_png_extension("jpg"));
}

#[test]
fn limits_do_not_overflow() {
    assert_eq!(limit_in_bytes(5, None), 5);
    assert_eq!(limit_in_bytes(5, Some(3)), 3 << 30);
    assert_eq!(limit_in_bytes(5, Some(u64::MAX)), u64::MAX);
    let limit = SizeLimit { preset: false, gib: 0, mib: 1 << 50 };
    assert_eq!(limit.max_bytes(), u64::MAX);
}

#[test]
fn settings_are_read() {
    assert_eq!(max_pixels(None), 512_000_000);
    assert_eq!(max_pixels(Some("1000")), 1000);
    assert_eq!(max_pixels(Some("+7")), 7);
    assert_eq!(max_pixels(Some("18446744073709551615")), u64::MAX);
    for bad in ["", "+", "-1", " 5", "5 ", "18446744073709551616", "1e3", "١"] {
        assert_eq!(max_pixels(Some(bad)), 512_000_000, "{:?}", bad);
    }
    assert_eq!(password_field(""), None);
    assert_eq!(password_field("é"), Some("é".to_string()));
}

#[test]
fn capacity_is_hinted() {
    let one = [FileLen { name: 8, data: 1000 }];
    let hint = capacity_hint(256, 256, 2, &one, false);
    assert_eq!(hint.capacity, 49152);
    assert_eq!(hint.plain, 1051);
    assert_eq!(hint.total, 1088);
    assert!(hint.fits);
    let hint = capacity_hint(256, 256, 2, &one, true);
    assert_eq!(hint.total, 1051 + 16 + 59);
    let two = [FileLen { name: 1, data: 2 }, FileLen { name: 3, data: 4 }];
    assert_eq!(capacity_hint(0, 9, 2, &two, false).plain, 5 + 84 + 10);
    assert!(!capacity_hint(0, 9, 2, &two, false).fits);
    assert_eq!(capacity_hint(9, 9, 2, &[], false).plain, 0);
    let huge = [FileLen { name: 1, data: u64::MAX }];
    assert_eq!(capacity_hint(9, 9, 2, &huge, true).total, u64::MAX);
    assert_eq!(container_hint(100, false), 356);
    assert_eq!(container_hint(100, true), 372);
    assert_eq!(container_hint(u64::MAX, true), u64::MAX);
}

#[test]
fn logs_are_cut() {
    let mut log = String::new();
    push_log(&mut log, "a");
    push_log(&mut log, "b");
    assert_eq!(log, "a\nb\n");
    push_log(&mut log, &"x".repeat(9995));
    assert_eq!(log.len(), 10_000);
    push_log(&mut log, "y");
    assert_eq!(log.len(), 5000);
    assert!(log.ends_with("x\ny\n"));
    let mut wide = "é".repeat(4999);
    push_log(&mut wide, &"é".repeat(2));
    assert_eq!(wide.chars().count(), 5000);
    let mut few = String::new();
    push_log(&mut few, &"\u{1f600}".repeat(3000));
    assert_eq!(few.chars().count(), 3001);
}

#[test]
fn messages_change_the_status() {
    let mut status = Status { log: String::new(), label: "x".to_string(), busy: true };
    assert_eq!(status.shown_label(), "x");
    assert_eq!(status.receive(UiMessage::Progress { label: "A esconder".to_string() }), Gauge::Follows);
    assert_eq!(status.shown_label(), "A esconder");
    assert_eq!(status.receive(UiMessage::Info { msg: "i".to_string() }), Gauge::Stays);
    assert_eq!(status.receive(UiMessage::Error { err: "e".to_string() }), Gauge::Empty);
    assert_eq!((status.label.as_str(), status.busy), ("Erro", false));
    assert_eq!(status.shown_label(), "Pronto");
    status.busy = true;
    assert_eq!(status.receive(UiMessage::Done { log: "d".to_string() }), Gauge::Full);
    assert_eq!((status.label.as_str(), status.busy), ("Pronto", false));
    assert_eq!(status.log, "i\nERRO: e\nd\n");
}

#[test]
fn tasks_are_announced() {
    let summary = EmbedSummary {
        files: 2,
        bpc: 3,
        password_set: true,
        allow_upscale: false,
        container_mode: true,
        split: false,
    };
    assert_eq!(
        embed_started(None, "o.png", summary),
        "A iniciar embed: cover='(auto)', out='o.png', ficheiros=2, bpc=3, password_set=true, \
allow_upscale=false, container_mode=true, split=false"
    );
    assert_eq!(
        embed_running(Some("c.png"), "o.png", summary),
        "Embed em curso → cover='c.png', out='o.png', ficheiros=2, bpc=3, container_mode=true, \
split=false"
    );
    assert_eq!(
        reveal_started("s.png", "d", true, false),
        "A iniciar reveal: stego='s.png', outdir='d', bpc=2, password_set=true, split=false"
    );
    assert_eq!(
        reveal_running("s.png", "d", false, true),
        "Reveal em curso → stego='s.png', outdir='d', mode=lsb, split=true"
    );
    assert_eq!(join_started(4, "x", false), "A iniciar join: partes=4, out='x', password_set=false");
}
