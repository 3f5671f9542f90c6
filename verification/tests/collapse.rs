use collapse_perf::frame::norm_frame;
use collapse_perf::frame::tidy_generic;
use collapse_perf::frame::with_module_fallback;
use collapse_perf::state::handle_file;
use collapse_perf::state::PerfState;
use collapse_perf::state::RunConfig;

fn cfg() -> RunConfig {
    RunConfig {
        include_pid: false,
        include_tid: false,
        include_addrs: false,
        annotate_jit: false,
        annotate_kernel: false,
    }
}

fn lines(v: &[&str]) -> Vec<Vec<u8>> {
    v.iter().map(|s| s.as_bytes().to_vec()).collect()
}

fn run(c: RunConfig, v: &[&str]) -> (Vec<Vec<u8>>, Vec<Vec<u8>>) {
    handle_file(c, &lines(v))
}

#[test]
fn event_parts_tid_only() {
    let r = PerfState::event_line_parts(b"java 25607 4794564.109216: cycles:").unwrap();
    assert_eq!(r.0, b"java".to_vec());
    assert_eq!(r.1, b"?".to_vec());
    assert_eq!(r.2, b"25607".to_vec());
}

#[test]
fn event_parts_pid_and_tid() {
    let r = PerfState::event_line_parts(b"java 24636/25607 [000] 4794564.109216: cycles:")
        .unwrap();
    assert_eq!(r.0, b"java".to_vec());
    assert_eq!(r.1, b"24636".to_vec());
    assert_eq!(r.2, b"25607".to_vec());
}

#[test]
fn event_parts_comm_with_spaces() {
    let r = PerfState::event_line_parts(b"V8 WorkerThread 25607 4794564.109216: cycles:")
        .unwrap();
    assert_eq!(r.0, b"V8 WorkerThread".to_vec());
    assert_eq!(r.1, b"?".to_vec());
    assert_eq!(r.2, b"25607".to_vec());
}

#[test]
fn event_parts_no_numeric_word() {
    assert!(PerfState::event_line_parts(b"no numeric word here at all").is_none());
}

#[test]
fn stack_parts_basic() {
    let r = PerfState::stack_line_parts(
        b"    ffffffff8103ce3b native_safe_halt ([kernel.kallsyms])",
    )
    .unwrap();
    assert_eq!(r.0, b"ffffffff8103ce3b".to_vec());
    assert_eq!(r.1, b"native_safe_halt".to_vec());
    assert_eq!(r.2, b"[kernel.kallsyms]".to_vec());
}

#[test]
fn stack_parts_func_with_spaces() {
    let r = PerfState::stack_line_parts(b"7f1 some func name (/lib/x.so)").unwrap();
    assert_eq!(r.0, b"7f1".to_vec());
    assert_eq!(r.1, b"some func name".to_vec());
    assert_eq!(r.2, b"/lib/x.so".to_vec());
}

#[test]
fn stack_parts_malformed() {
    assert!(PerfState::stack_line_parts(b"nospaceshere").is_none());
    assert!(PerfState::stack_line_parts(b"abc def").is_none());
    assert!(PerfState::stack_line_parts(b"a b (").is_none());
}

#[test]
fn offset_hex_is_stripped() {
    let r = norm_frame(cfg(), b"7f53", b"_dl_check_map_versions+0x597", b"/usr/lib/ld-2.28.so");
    assert_eq!(r.unwrap(), b"_dl_check_map_versions".to_vec());
}

#[test]
fn offset_nonhex_is_kept() {
    let r = norm_frame(cfg(), b"7f53", b"foo+0xZZ", b"/usr/lib/ld-2.28.so");
    assert_eq!(r.unwrap(), b"foo+0xZZ".to_vec());
}

#[test]
fn pseudo_frame_is_discarded() {
    assert!(norm_frame(cfg(), b"0", b"(java)", b"/lib/a.so").is_none());
}

#[test]
fn fallback_known_module() {
    let r = with_module_fallback(b"/path/to/foo.so", b"[unknown]", b"1234", false);
    assert_eq!(r, b"[foo.so]".to_vec());
}

#[test]
fn fallback_known_module_with_addrs() {
    let r = with_module_fallback(b"/path/to/foo.so", b"[unknown]", b"1234", true);
    assert_eq!(r, b"[foo.so <1234>]".to_vec());
}

#[test]
fn fallback_unknown_module() {
    let r = with_module_fallback(b"[unknown]", b"[unknown]", b"0", false);
    assert_eq!(r, b"[unknown]".to_vec());
}

#[test]
fn fallback_known_symbol_untouched() {
    let r = with_module_fallback(b"/lib/a.so", b"main", b"0", true);
    assert_eq!(r, b"main".to_vec());
}

#[test]
fn tidy_strips_argument_list() {
    assert_eq!(tidy_generic(b"foo(int, char)"), b"foo".to_vec());
}

#[test]
fn tidy_keeps_dotted_method() {
    assert_eq!(
        tidy_generic(b"net/http.(*Client).Do"),
        b"net/http.(*Client).Do".to_vec()
    );
}

#[test]
fn tidy_remaps_semicolons() {
    assert_eq!(tidy_generic(b"a;b;c"), b"a:b:c".to_vec());
}

#[test]
fn tidy_anonymous_namespace_text_after_paren() {
    // The marker check looks at the text from the `(` itself, which always
    // begins with `(`, so such a name is truncated like any other.
    assert_eq!(tidy_generic(b"foo(anonymous namespace)::bar"), b"foo".to_vec());
}

#[test]
fn label_with_tid() {
    let mut c = cfg();
    c.include_tid = true;
    let mut st = PerfState::new(c);
    st.on_line(b"java 100/200 1.0: cycles:");
    assert_eq!(st.pname, b"java-100/200".to_vec());
}

#[test]
fn label_with_pid() {
    let mut c = cfg();
    c.include_pid = true;
    let mut st = PerfState::new(c);
    st.on_line(b"java 100/200 1.0: cycles:");
    assert_eq!(st.pname, b"java-100".to_vec());
}

#[test]
fn label_plain() {
    let mut st = PerfState::new(cfg());
    st.on_line(b"java 100/200 1.0: cycles:");
    assert_eq!(st.pname, b"java".to_vec());
}

#[test]
fn label_spaces_become_underscores() {
    let mut st = PerfState::new(cfg());
    st.on_line(b"V8 WorkerThread 25607 4794564.109216: cycles:");
    assert_eq!(st.pname, b"V8_WorkerThread".to_vec());
}

#[test]
fn two_identical_events_fold_to_count_two() {
    let (out, diags) = run(
        cfg(),
        &[
            "java 100 1.0: cycles:",
            "  ffff foo (/lib/a.so)",
            "  ffff bar (/lib/a.so)",
            "",
            "java 100 1.0: cycles:",
            "  ffff foo (/lib/a.so)",
            "  ffff bar (/lib/a.so)",
            "",
        ],
    );
    assert_eq!(out, vec![b"java;bar;foo 2".to_vec()]);
    assert!(diags.is_empty());
}

#[test]
fn event_without_frames_counts_label_alone() {
    let (out, diags) = run(cfg(), &["java 100 1.0: cycles:", ""]);
    assert_eq!(out, vec![b"java 1".to_vec()]);
    assert!(diags.is_empty());
}

#[test]
fn malformed_header_then_valid_header() {
    let (out, diags) = run(
        cfg(),
        &["nonsense header", "java 100 1.0: cycles:", ""],
    );
    assert_eq!(out, vec![b"java 1".to_vec()]);
    assert_eq!(diags, vec![b"weird event line: nonsense header".to_vec()]);
}

#[test]
fn malformed_stack_line_is_skipped_with_diagnostic() {
    let (out, diags) = run(
        cfg(),
        &[
            "java 100 1.0: cycles:",
            "  badframeline",
            "  ffff foo (/lib/a.so)",
            "",
        ],
    );
    assert_eq!(out, vec![b"java;foo 1".to_vec()]);
    assert_eq!(diags, vec![b"weird stack line:   badframeline".to_vec()]);
}

#[test]
fn comment_lines_are_ignored() {
    let (out, diags) = run(
        cfg(),
        &["# a comment", "java 100 1.0: cycles:", "# another", ""],
    );
    assert_eq!(out, vec![b"java 1".to_vec()]);
    assert!(diags.is_empty());
}

#[test]
fn blank_line_outside_event_is_no_op() {
    let (out, _) = run(cfg(), &["", "java 100 1.0: cycles:", ""]);
    assert_eq!(out, vec![b"java 1".to_vec()]);
}

#[test]
fn stream_ending_mid_event_drops_the_event() {
    let (out, _) = run(
        cfg(),
        &["java 100 1.0: cycles:", "  ffff foo (/lib/a.so)"],
    );
    assert!(out.is_empty());
}

#[test]
fn output_is_sorted_lexicographically() {
    let (out, _) = run(
        cfg(),
        &[
            "zsh 2 1.0: cycles:",
            "",
            "awk 1 1.0: cycles:",
            "",
            "bash 3 1.0: cycles:",
            "",
        ],
    );
    assert_eq!(
        out,
        vec![b"awk 1".to_vec(), b"bash 1".to_vec(), b"zsh 1".to_vec()]
    );
}

#[test]
fn count_renders_in_decimal() {
    let mut input: Vec<&str> = Vec::new();
    for _ in 0..12 {
        input.push("java 100 1.0: cycles:");
        input.push("");
    }
    let (out, _) = run(cfg(), &input);
    assert_eq!(out, vec![b"java 12".to_vec()]);
}

#[test]
fn kernel_annotation() {
    let mut c = cfg();
    c.annotate_kernel = true;
    let (out, _) = run(
        c,
        &[
            "java 100 1.0: cycles:",
            "  ffffffff8103ce3b native_safe_halt ([kernel.kallsyms])",
            "",
        ],
    );
    assert_eq!(out, vec![b"java;native_safe_halt_[k] 1".to_vec()]);
}

#[test]
fn kernel_annotation_vmlinux() {
    let mut c = cfg();
    c.annotate_kernel = true;
    let (out, _) = run(
        c,
        &[
            "java 100 1.0: cycles:",
            "  8c3453 tcp_sendmsg (/lib/modules/4.3.0-rc1-virtual/build/vmlinux)",
            "",
        ],
    );
    assert_eq!(out, vec![b"java;tcp_sendmsg_[k] 1".to_vec()]);
}

#[test]
fn kernel_annotation_skips_unknown_module() {
    let mut c = cfg();
    c.annotate_kernel = true;
    let (out, _) = run(
        c,
        &["java 100 1.0: cycles:", "  7f53 [unknown] ([unknown])", ""],
    );
    assert_eq!(out, vec![b"java;[unknown] 1".to_vec()]);
}

#[test]
fn jit_annotation() {
    let mut c = cfg();
    c.annotate_jit = true;
    let (out, _) = run(
        c,
        &[
            "java 100 1.0: cycles:",
            "  7f72 Ljava/io/PrintStream;::print (/tmp/perf-19982.map)",
            "",
        ],
    );
    // the `;` in the JIT symbol is remapped to `:` before annotation
    assert_eq!(out, vec![b"java;Ljava/io/PrintStream:::print_[j] 1".to_vec()]);
}

#[test]
fn unknown_symbol_with_addrs_end_to_end() {
    let mut c = cfg();
    c.include_addrs = true;
    let (out, _) = run(
        c,
        &[
            "java 100 1.0: cycles:",
            "  1234 [unknown] (/path/to/foo.so)",
            "",
        ],
    );
    assert_eq!(out, vec![b"java;[foo.so <1234>] 1".to_vec()]);
}

#[test]
fn distinct_stacks_are_counted_separately() {
    let (out, _) = run(
        cfg(),
        &[
            "java 100 1.0: cycles:",
            "  ffff foo (/lib/a.so)",
            "",
            "java 100 1.0: cycles:",
            "  ffff bar (/lib/a.so)",
            "",
            "java 100 1.0: cycles:",
            "  ffff foo (/lib/a.so)",
            "",
        ],
    );
    assert_eq!(
        out,
        vec![b"java;bar 1".to_vec(), b"java;foo 2".to_vec()]
    );
}
