use rfast::text::{
    chars_of, is_ws_exec, join_exec, lines_exec, split_exec, trim_end_exec, trim_exec,
    trim_start_exec,
};

fn collect(v: &[Vec<char>]) -> Vec<String> {
    v.iter().map(|l| l.iter().collect()).collect()
}

const SAMPLES: &[&str] = &[
    "",
    "a",
    "\n",
    "a\n",
    "a\nb",
    "a\r\nb\r\n",
    "a\rb\r",
    "\r\n\r\n",
    "  x  \n\t y \u{a0}\n",
    "\u{3000}wide\u{2028}",
    "no newline at end\r",
];

#[test]
fn white_space_matches_std() {
    for u in 0u32..=0x10FFFF {
        if let Some(c) = char::from_u32(u) {
            assert_eq!(is_ws_exec(c), c.is_whitespace(), "U+{:04X}", u);
        }
    }
}

#[test]
fn lines_match_std() {
    for s in SAMPLES {
        let got = collect(&lines_exec(&chars_of(s)));
        let want: Vec<String> = s.lines().map(String::from).collect();
        assert_eq!(got, want, "{:?}", s);
    }
}

#[test]
fn trims_match_std() {
    for s in SAMPLES {
        let v = chars_of(s);
        assert_eq!(trim_exec(&v).iter().collect::<String>(), s.trim());
        assert_eq!(trim_start_exec(&v).iter().collect::<String>(), s.trim_start());
        assert_eq!(trim_end_exec(&v).iter().collect::<String>(), s.trim_end());
    }
}

#[test]
fn split_and_join_match_std() {
    for s in ["", ",", "a,b", "a,,b,", " x , y "] {
        let got = collect(&split_exec(&chars_of(s), ','));
        let want: Vec<String> = s.split(',').map(String::from).collect();
        assert_eq!(got, want);
        let parts: Vec<Vec<char>> = want.iter().map(|p| chars_of(p)).collect();
        let joined: String = join_exec(&parts, &chars_of("\n")).iter().collect();
        assert_eq!(joined, want.join("\n"));
    }
}
