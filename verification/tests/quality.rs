use roused::quality::accepts;
use roused::response::html_media_range_is_accepted;

fn expected(text: &str) -> bool {
    text.parse::<f32>()
        .is_ok_and(|quality| quality > 0.0 && quality <= 1.0)
}

fn accepted(text: &str) -> bool {
    let chars: Vec<char> = text.chars().collect();
    accepts(&chars)
}

#[test]
fn qualities_agree_with_single_precision() {
    for text in [
        "0", "0.0", "0.5", "1", "1.0", "1.000", "1.001", "0.001", "2", "-0", "-0.5", "-1", "+0.5",
        "+", "-", "", ".", ".5", "5.", "1.", "0.", ".0", "1e0", "1E0", "1e", "1e+", "1e-", "1e+0",
        "1e-0", "1e1", "10e-1", "0.1e1", "0.01e2", "0.01e3", "100e-2", "101e-2", "1e-1", "e1",
        ".e1", "1e1.5", "inf", "infinity", "nan", "NaN", "+inf", "0x1", "1_0", " 1", "1 ", "1,0",
        "++1", "+-1", "1e--1", "1..0", "1.0.0", "9", "10", "11", "000000.5", "0000001",
        "00000010", "1e-45", "1e-46", "7e-46", "7.1e-46", "7.006e-46", "7.007e-46", "7.0064923e-46",
        "7.0064924e-46", "1e-44", "1e-38", "0e999999999999999999999999", "1e999999999999999999999",
        "1e-999999999999999999999", "0.000000000000000000000000000000000000000000001",
        "0.0000000000000000000000000000000000000000000001",
        "0.0000000000000000000000000000000000000000000007006492321624085354618647916449580656401309709382578858785341419448955413429303007433190941810607910156250",
        "0.0000000000000000000000000000000000000000000007006492321624085354618647916449580656401309709382578858785341419448955413429303007433190941810607910156251",
        "700649232162408535461864791644958065640130970938257885878534141944895541342930300743319094181060791015625e-150",
        "700649232162408535461864791644958065640130970938257885878534141944895541342930300743319094181060791015624e-150",
        "700649232162408535461864791644958065640130970938257885878534141944895541342930300743319094181060791015626e-150",
        "1.00000005", "1.00000006", "1.000000059604644775390625", "1.0000000596046447753906250",
        "1.0000000596046447753906251", "1.000000059604644775390624", "1000000059604644775390625e-24",
        "1.0000001", "0.99999999999", "1.00000000000000000000000000000000000001",
    ] {
        assert_eq!(accepted(text), expected(text), "{text:?}");
    }
}

#[test]
fn short_decimals_agree_with_single_precision() {
    for whole in 0..3 {
        for fraction in 0..1_000 {
            let text = format!("{whole}.{fraction:03}");
            assert_eq!(accepted(&text), expected(&text), "{text}");
            for exponent in [-3, -1, 0, 2] {
                let text = format!("{whole}.{fraction:03}e{exponent}");
                assert_eq!(accepted(&text), expected(&text), "{text}");
            }
        }
    }
}

#[test]
fn tiny_decimals_agree_with_single_precision() {
    for digits in 1..2_000 {
        for exponent in 40..52 {
            let text = format!("{digits}e-{exponent}");
            assert_eq!(accepted(&text), expected(&text), "{text}");
        }
    }
}

#[test]
fn html_is_accepted_by_its_first_quality() {
    for range in [
        "text/html",
        " TEXT/HTML ",
        "text/html;q=1",
        "text/html; Q = 0.3 ",
        "text/html;charset=utf-8",
        "text/html;charset=utf-8;q=0.1",
        "text/html;q",
        "text/html;q=1;q=0",
        "\ttext/html\t;\tq\t=\t.5\t",
    ] {
        assert!(html_media_range_is_accepted(range), "{range:?}");
    }
    for range in [
        "",
        "text/*",
        "*/*",
        "text/html+xml",
        "text/html;q=0",
        "text/html;q=",
        "text/html;q=1.1",
        "text/html;q=abc",
        "text/html;q=0;q=1",
        "text /html",
        ";text/html",
    ] {
        assert!(!html_media_range_is_accepted(range), "{range:?}");
    }
}
