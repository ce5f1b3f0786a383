use crptls::account::{RawAccount, Term};
use crptls::dec::Dec;
use crptls::decimal_utils::{round_d128_1e2, round_d128_1e8, round_d128_generalized};
use crptls::mytui::app as menu;
use crptls::tui::app as old_menu;

fn d(s: &str) -> Dec {
    Dec::parse(s).unwrap()
}

#[test]
fn quantize_an_even_share_of_incoming_lots() {
    let ratio = d("20").checked_div(&d("200")).unwrap();
    assert!(ratio.eq_value(&d("0.1")));
    let tentative = ratio.checked_mul(&d("50")).unwrap();
    let corresponding = tentative.round_dp(8);
    assert!(corresponding.eq_value(&d("5")));
    assert!(corresponding.has_at_most_8_places());
}

#[test]
fn quantize_an_uneven_share_of_incoming_lots() {
    let ratio = d("1").checked_div(&d("6")).unwrap();
    let tentative = ratio.checked_mul(&d("1234567.1234567896")).unwrap();
    let corresponding = tentative.round_dp(8);
    assert_eq!(corresponding.to_string(), "205761.18724280");
}

#[test]
fn rounding_half_to_even() {
    assert_eq!(round_d128_1e2(&d("2.345")).to_string(), "2.34");
    assert_eq!(round_d128_1e2(&d("2.355")).to_string(), "2.36");
    assert_eq!(round_d128_1e8(&d("123456789.123456789")).to_string(), "123456789.12345679");
    assert_eq!(round_d128_generalized(&d("-1.5"), 0).to_string(), "-2");
    assert_eq!(round_d128_1e2(&d("7")).to_string(), "7");
}

#[test]
fn decimal_arithmetic_is_exact() {
    let a = d("0.1");
    let b = d("0.2");
    assert_eq!(a.checked_add(&b).unwrap().to_string(), "0.3");
    assert_eq!(b.checked_sub(&a).unwrap().to_string(), "0.1");
    assert!(d("-3").abs().eq_value(&d("3")));
    assert!(d("3").neg().eq_value(&d("-3")));
    assert!(d("1.50").normalize().to_string() == "1.5");
    assert!(d("1").checked_div(&d("0")).is_none());
    assert!(d("1.123456789").has_at_most_8_places() == false);
    assert!(d("1.12345678").has_at_most_8_places());
    assert!(Dec::parse("abc").is_none());
    assert!(d("2").lt(&d("3")) && d("3").gt(&d("2")) && d("2").le(&d("2")) && d("2").ge(&d("2")));
}

#[test]
fn raw_account_texts() {
    let r = RawAccount { account_num: 3, name: "Kraken".to_string(), ticker: "BTC".to_string(), is_margin: true };
    assert!(r.is_home_currency("BTC"));
    assert!(!r.is_home_currency("USD"));
    assert_eq!(r.margin_string(), "Margin");
    let s = RawAccount { account_num: 4, name: "Bank".to_string(), ticker: "USD".to_string(), is_margin: false };
    assert_eq!(s.margin_string(), "Non-margin");
    assert_eq!(Term::LT.abbr_string(), "LT");
    assert_eq!(Term::ST.abbr_string(), "ST");
}

#[test]
fn list_state_moves_within_bounds() {
    let mut l = old_menu::ListState::new(vec!["a", "b", "c"]);
    assert_eq!(l.selected, 0);
    l.select_previous();
    assert_eq!(l.selected, 0);
    l.select_next();
    l.select_next();
    l.select_next();
    assert_eq!(l.selected, 2);
    l.select_previous();
    assert_eq!(l.selected, 1);
}

#[test]
fn old_menu_prints_chosen_reports_in_order_once() {
    let mut w = old_menu::PrintWindow::new("Reports".to_string());
    w.on_down();
    w.on_down();
    w.on_key('x');
    w.on_up();
    w.on_key('x');
    w.on_key('x');
    w.on_key('p');
    assert!(w.should_quit);
    assert_eq!(w.to_print, vec![1, 2]);
    let mut v = vec![5, 3, 5, 1, 3];
    old_menu::PrintWindow::change_vec_to_chrono_order_and_dedup(&mut v);
    assert_eq!(v, vec![1, 3, 5]);
    let mut q = old_menu::PrintWindow::new("Reports".to_string());
    q.on_key('x');
    q.on_key('q');
    assert!(q.should_quit);
    assert!(q.to_print.is_empty());
}

#[test]
fn menu_wraps_around() {
    let mut w = menu::PrintWindow::new("Reports".to_string());
    assert_eq!(w.tasks.items.len(), 11);
    assert_eq!(w.tasks.state.selected(), Some(0));
    w.on_up();
    assert_eq!(w.tasks.state.selected(), Some(10));
    w.on_down();
    assert_eq!(w.tasks.state.selected(), Some(0));
}

#[test]
fn menu_chooses_and_drops_reports() {
    let mut w = menu::PrintWindow::new("Reports".to_string());
    w.on_down();
    w.on_down();
    w.on_key('x');
    assert_eq!(w.to_print_by_idx, vec![2]);
    assert_eq!(w.tasks.state.selected(), Some(3));
    w.on_up();
    w.on_up();
    w.on_up();
    w.on_key('x');
    assert_eq!(w.to_print_by_idx, vec![0, 2]);
    assert_eq!(w.to_print_by_title[1], w.tasks.items[2]);
    assert_eq!(w.tasks.state.selected(), Some(1));
    w.on_down();
    w.on_key('d');
    assert_eq!(w.to_print_by_idx, vec![0]);
    w.on_key('p');
    assert!(w.should_quit);
    assert_eq!(w.to_print_by_idx, vec![0]);
}

#[test]
fn menu_quit_chooses_nothing() {
    let mut w = menu::PrintWindow::new("Reports".to_string());
    w.on_key('x');
    w.on_key('q');
    assert!(w.should_quit);
    assert!(w.to_print_by_idx.is_empty());
}

#[test]
fn report_lists_are_distinct() {
    let r = menu::reports();
    for i in 0..r.len() {
        for j in (i + 1)..r.len() {
            assert_ne!(r[i], r[j]);
        }
    }
    assert_eq!(old_menu::reports().len(), 9);
}

#[test]
fn menu_ignores_other_keys() {
    let mut w = menu::PrintWindow::new("Reports".to_string());
    w.on_key('x');
    w.on_key('z');
    assert_eq!(w.tasks.state.selected(), Some(1));
    assert_eq!(w.to_print_by_idx, vec![0]);
    assert!(!w.should_quit);
    w.on_key('d');
    assert_eq!(w.tasks.state.selected(), Some(0));
}
