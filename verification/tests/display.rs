use portprobe::cli::{paint_if, Args, CliColors, CliPort};
use portprobe::scan::Status;

#[test]
fn labels_are_centered_without_colors() {
    assert_eq!(Status::Open.display(7, CliColors::No), " open  ");
    assert_eq!(Status::Closed.display(7, CliColors::No), "closed ");
    assert_eq!(Status::TimedOut.display(7, CliColors::No), "timeout");
}

#[test]
fn zero_pad_leaves_label_unchanged() {
    assert_eq!(Status::Open.display(0, CliColors::No), "open");
    assert_eq!(Status::Closed.display(0, CliColors::No), "closed");
    assert_eq!(Status::TimedOut.display(0, CliColors::No), "timeout");
}

#[test]
fn always_paints_with_status_color() {
    assert_eq!(Status::Open.display(0, CliColors::Always), "\x1b[32mopen\x1b[0m");
    assert_eq!(Status::TimedOut.display(0, CliColors::Always), "\x1b[33mtimeout\x1b[0m");
    assert_eq!(
        Status::Closed.display(6, CliColors::Always),
        "\x1b[38;5;249mclosed\x1b[0m"
    );
}

#[test]
fn paint_if_wraps_or_passes_through() {
    assert_eq!(paint_if(true, "hi", "\x1b[1m"), "\x1b[1mhi\x1b[0m");
    assert_eq!(paint_if(false, "hi", "\x1b[1m"), "hi");
}

#[test]
fn wide_pad_centers_with_extra_space_on_the_right() {
    assert_eq!(Status::Open.display(9, CliColors::No), "  open   ");
}

#[test]
fn default_color_mode_is_yes_or_no() {
    let c = CliColors::default();
    assert!(c == CliColors::Yes || c == CliColors::No);
}

fn sample_args() -> Args {
    Args {
        host: None,
        port: Vec::<CliPort>::new(),
        all: false,
        timeout: 2000,
        retries: 2,
        threads: None,
        inspect: false,
        colors: CliColors::No,
    }
}

#[test]
fn host_defaults_to_localhost() {
    let a = sample_args();
    assert_eq!(a.effective_host(), "localhost");
    let mut b = sample_args();
    b.host = Some("example.org".to_string());
    assert_eq!(b.effective_host(), "example.org");
}

#[test]
fn threads_default_to_available_parallelism() {
    let a = sample_args();
    assert_eq!(a.effective_threads(8), 8);
    let mut b = sample_args();
    b.threads = Some(3);
    assert_eq!(b.effective_threads(8), 3);
}
