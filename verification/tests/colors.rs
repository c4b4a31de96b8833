use betty_ide::highligher::TokenType;
use betty_ide::settings::CodeColor;

fn sample_colors() -> CodeColor {
    CodeColor {
        ident: [1, 2, 3],
        number: [4, 5, 6],
        string: [7, 8, 9],
        symbol: [10, 11, 12],
        keyword: [13, 14, 15],
        builtin_fn: [16, 17, 18],
        fun: [19, 20, 21, 22],
        comment: [23, 24, 25],
        error: [26, 27, 28],
        other: [29, 30, 31],
    }
}

#[test]
fn plain_slots_come_out_opaque() {
    let colors = sample_colors();
    assert_eq!(colors.color_of(TokenType::Ident), [1, 2, 3, 255]);
    assert_eq!(colors.color_of(TokenType::Num), [4, 5, 6, 255]);
    assert_eq!(colors.color_of(TokenType::Str), [7, 8, 9, 255]);
    assert_eq!(colors.color_of(TokenType::Sym), [10, 11, 12, 255]);
    assert_eq!(colors.color_of(TokenType::Kw), [13, 14, 15, 255]);
    assert_eq!(colors.color_of(TokenType::BuiltinFun), [16, 17, 18, 255]);
    assert_eq!(colors.color_of(TokenType::Comment), [23, 24, 25, 255]);
    assert_eq!(colors.color_of(TokenType::Error), [26, 27, 28, 255]);
    assert_eq!(colors.color_of(TokenType::Other), [29, 30, 31, 255]);
}

#[test]
fn call_site_slot_keeps_its_alpha() {
    let colors = sample_colors();
    assert_eq!(colors.color_of(TokenType::Fun), [19, 20, 21, 22]);
}
