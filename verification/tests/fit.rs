use mdv::fit::{fit_columns, sorted_copy, Fitter};
use mdv::markdown::{parse, MdEvent, MdTag, MdTagEnd};
use mdv::style::Span;
use mdv::table::{count_lines, measure_cell};

fn least_widths(f: &Fitter) -> Vec<usize> {
    f.min.clone()
}

#[test]
fn natural_widths_are_kept_when_they_fit() {
    let cells = vec![vec![measure_cell(&[Span::plain("ab")]), measure_cell(&[Span::plain("c")])]];
    assert_eq!(fit_columns(&cells, &[2, 1], &[2, 1], 10, &least_widths), vec![2, 1]);
}

#[test]
fn minimums_are_scaled_when_even_they_do_not_fit() {
    let cells = vec![vec![measure_cell(&[Span::plain("abcdef")]), measure_cell(&[Span::plain("ghijkl")])]];
    assert_eq!(fit_columns(&cells, &[6, 6], &[6, 6], 6, &least_widths), vec![3, 3]);
}

#[test]
fn measured_cells_split_at_line_feeds() {
    assert_eq!(measure_cell(&[Span::plain("ab  c\nd")]), vec![vec![2, 1], vec![1]]);
    assert_eq!(count_lines(&measure_cell(&[Span::plain("aaaaa")]), 2), 3);
}

#[test]
fn sorting_orders_ascending() {
    assert_eq!(sorted_copy(&vec![3, 1, 2, 1]), vec![1, 1, 2, 3]);
}

#[test]
fn parsing_gives_plain_events() {
    let ev = parse("## Hi\n");
    assert!(matches!(ev[0], MdEvent::Start(MdTag::Heading(2))));
    assert!(matches!(&ev[1], MdEvent::Text(t) if t == "Hi"));
    assert!(matches!(ev[2], MdEvent::End(MdTagEnd::Heading(2))));
}

#[test]
fn leftover_width_goes_to_the_widest_gaps() {
    let cells = vec![vec![measure_cell(&[Span::plain("aaaa bb")]), measure_cell(&[Span::plain("cc")])]];
    let natural = [7, 2];
    let fit = Fitter::new(&cells, &natural, vec![4, 2], 8);
    // Widths below the minimums are taken as they are; the gaps are filled first.
    assert_eq!(fit.fill_leftover(vec![1, 1]), vec![6, 2]);
    assert_eq!(fit.fill_leftover(vec![7, 1]), vec![7, 1]);
}

#[test]
fn local_search_only_moves_to_shorter_layouts() {
    let cells = vec![vec![measure_cell(&[Span::plain("aaaa bbbb cccc")]), measure_cell(&[Span::plain("dd ee")])]];
    let natural = [14, 5];
    let fit = Fitter::new(&cells, &natural, vec![4, 2], 10);
    let start = vec![4, 6];
    let start = if fit.is_valid(&start) { start } else { vec![4, 2] };
    let r = fit.local_search(start.clone());
    assert!(fit.height(&r) <= fit.height(&start));
    if r != start {
        assert!(fit.height(&r) < fit.height(&start));
    }
}
