use mdv::fit::{fit_columns, Fitter};
use mdv::render::{render, Config};
use mdv::style::{ColorMode, Span};
use mdv::table::{count_lines, measure_cell, CellWords};
use mdv::wrap::wrap;

/// The power of the smooth maximum that `greedy` scores rows with.
const P: i32 = 4;

/// Proposes column widths as the application does: from the minimum widths, gives width
/// to whichever column cuts the most lines per column spent (with a smooth max to get
/// past plateaus where several columns must widen together).
fn greedy(fit: &Fitter) -> Vec<usize> {
    let pow = |l: u32| (l as f64).powi(P);
    let root = |x: f64| x.powf(1.0 / P as f64);
    let (ncols, nrows) = (fit.ncols(), fit.cells.len());
    let mut widths = fit.min.clone();
    let mut left = fit.space - fit.min.iter().sum::<usize>();
    let mut row_sum: Vec<f64> =
        (0..nrows).map(|r| (0..ncols).map(|c| pow(fit.col(c, widths[c])[r])).sum()).collect();
    let mut other_max = vec![0u32; nrows];
    while left > 0 {
        let cur_h = fit.height(&widths);
        let cur_soft: f64 = row_sum.iter().map(|&s| root(s)).sum();
        // (gain per column spent, column, added width)
        let mut best_exact: Option<(f64, usize, usize)> = None;
        let mut best_soft: Option<(f64, usize, usize)> = None;
        for c in 0..ncols {
            for (r, m) in other_max.iter_mut().enumerate() {
                *m = (0..ncols).filter(|&o| o != c).map(|o| fit.col(o, widths[o])[r]).max().unwrap_or(0);
            }
            let old = fit.col(c, widths[c]);
            let mut prev = old;
            for w in widths[c] + 1..=fit.max_w[c].min(widths[c] + left) {
                let new = fit.col(c, w);
                if new == prev {
                    continue;
                }
                prev = new;
                let k = (w - widths[c]) as f64;
                let h: u32 = (0..nrows).map(|r| new[r].max(other_max[r])).sum();
                if h < cur_h {
                    let g = (cur_h - h) as f64 / k;
                    if best_exact.is_none_or(|(b, _, _)| g > b) {
                        best_exact = Some((g, c, w - widths[c]));
                    }
                }
                if best_exact.is_none() {
                    let soft: f64 = (0..nrows).map(|r| root(row_sum[r] - pow(old[r]) + pow(new[r]))).sum();
                    let g = (cur_soft - soft) / k;
                    if g > 1e-9 && best_soft.is_none_or(|(b, _, _)| g > b) {
                        best_soft = Some((g, c, w - widths[c]));
                    }
                }
            }
        }
        let Some((_, c, k)) = best_exact.or(best_soft) else { break };
        let (old, new) = (fit.col(c, widths[c]), fit.col(c, widths[c] + k));
        for r in 0..nrows {
            row_sum[r] += pow(new[r]) - pow(old[r]);
        }
        widths[c] += k;
        left -= k;
    }
    widths
}


fn plain(md: &str, width: usize) -> String {
    let cfg = Config {
        width,
        mode: ColorMode::NoColor,
        hyperlinks: false,
        light: false,
        theme: String::new(),
        base_dir: Some("/docs".to_string()),
    };
    render(md, cfg, &greedy).unwrap()
}

#[test]
fn count_lines_matches_wrap() {
    let texts = ["aaa bbb ccc dddddddddd", "x", "", "a\nbb cc", "averyveryverylongword and more"];
    for t in texts {
        for w in 1..30 {
            let spans = [Span::plain(t)];
            assert_eq!(count_lines(&measure_cell(&spans), w) as usize, wrap(&spans, w).len(), "{t:?} @ {w}");
        }
    }
}

#[test]
fn count_lines_agrees_with_wrap_on_tabs_and_blank_runs() {
    let texts = ["  lead\ttab  trail ", "a\n\nb", "\tx\ty\n z"];
    for t in texts {
        for w in 1..12 {
            let spans = [Span::plain(t)];
            assert_eq!(count_lines(&measure_cell(&spans), w) as usize, wrap(&spans, w).len(), "{t:?} @ {w}");
        }
    }
}

#[test]
fn count_lines_drops_a_final_blank_line_as_wrap_does() {
    for t in ["a\n", "a\n  ", "a\n\n", "a\n\t\n ", "\n"] {
        for w in 1..6 {
            let spans = [Span::plain(t)];
            assert_eq!(count_lines(&measure_cell(&spans), w) as usize, wrap(&spans, w).len(), "{t:?} @ {w}");
        }
    }
    assert_eq!(count_lines(&measure_cell(&[Span::plain("a\n  ")]), 5), 1);
}

#[test]
fn fit_columns_favors_text_heavy_columns() {
    let cell = |t: &str| measure_cell(&[Span::plain(t)]);
    let long = "lorem ipsum dolor sit amet consectetur adipiscing elit sed do eiusmod";
    let cells: Vec<Vec<CellWords>> = (0..5)
        .map(|i| vec![cell("No evidence"), cell(if i == 0 { "Live evidence evidence evidence" } else { "No" }), cell(long)])
        .collect();
    let natural = [11, 31, long.len()];
    let widths = fit_columns(&cells, &natural, &[8, 8, 11], 50, &greedy);
    assert_eq!(widths.iter().sum::<usize>(), 50);
    assert!(widths[2] > widths[1], "{widths:?}");
}

#[test]
fn tight_and_ordered_lists() {
    assert_eq!(plain("- a\n- b\n  - c\n", 40), "• a\n• b\n  ◦ c\n");
    assert_eq!(plain("9. a\n10. b\n", 40), " 9. a\n10. b\n");
}

#[test]
fn links_resolve_relative_paths() {
    assert_eq!(plain("[x](<a b.md#h>)", 80), "x <file:///docs/a%20b.md#h>\n");
    assert_eq!(plain("<https://e.org>", 80), "https://e.org\n");
}

#[test]
fn table_layout() {
    let out = plain("| a | b |\n|---|--:|\n| x | 12 |\n| y | 3 |\n", 40);
    let want = "┌───┬────┐\n│ a │  b │\n╞═══╪════╡\n│ x │ 12 │\n├───┼────┤\n│ y │  3 │\n└───┴────┘\n";
    assert_eq!(out, want);
}

#[test]
fn headings_without_color_keep_their_hashes() {
    assert_eq!(plain("# Title\n", 40), "# Title\n");
    assert_eq!(plain("### Sub\n", 40), "### Sub\n");
}

#[test]
fn quotes_and_alerts_are_prefixed_with_a_bar() {
    assert_eq!(plain("> quote\n", 40), "│ quote\n");
    assert_eq!(plain("> [!NOTE]\n> hi\n", 40), "│ ⓘ Note\n│ hi\n");
}

#[test]
fn rules_fill_the_width() {
    assert_eq!(plain("---\n", 20), format!("{}\n", "─".repeat(20)));
}

#[test]
fn footnotes_are_numbered_in_order() {
    assert_eq!(plain("a[^1]\n\n[^1]: note\n", 40), "a[1]\n\n[1] note\n");
}

#[test]
fn task_list_checkbox_replaces_the_bullet() {
    assert_eq!(plain("- [x] done\n", 40), "☑ done\n");
}

#[test]
fn code_without_color_is_indented() {
    assert_eq!(plain("```\nx\n```\n", 40), "    x\n");
    assert_eq!(plain("`c`\n", 40), "`c`\n");
}

#[test]
fn images_show_their_target() {
    assert_eq!(plain("![alt](p.png)\n", 80), "[image: alt] <file:///docs/p.png>\n");
}

#[test]
fn unknown_theme_is_an_error_only_with_code_and_colors() {
    let cfg = |mode| Config {
        width: 40,
        mode,
        hyperlinks: false,
        light: false,
        theme: "no such theme".to_string(),
        base_dir: None,
    };
    let err = render("```rust\nfn main() {}\n```\n", cfg(ColorMode::Ansi256), &greedy);
    assert_eq!(err, Err("unknown theme 'no such theme' (see --list-themes)".to_string()));
    assert!(render("plain text\n", cfg(ColorMode::Ansi256), &greedy).is_ok());
    assert!(render("```rust\nfn main() {}\n```\n", cfg(ColorMode::NoColor), &greedy).is_ok());
}

#[test]
fn narrow_tables_are_stacked() {
    let out = plain("| a | b | c | d |\n|---|---|---|---|\n| www | xxx | yyy | zzz |\n", 20);
    assert_eq!(out, "a │ www\nb │ xxx\nc │ yyy\nd │ zzz\n");
}

#[test]
fn front_matter_is_hidden() {
    assert_eq!(plain("---\ntitle: x\n---\nhello\n", 40), plain("hello\n", 40));
    assert_eq!(plain("+++\ntitle = 1\n+++\n# h\n", 40), plain("# h\n", 40));
}
