//! The table of the device as it is sold: each code with the texts that stand
//! for it.

use vstd::prelude::*;
use vstd::string::*;
use crate::text::{CharEncoding, scan_word, shown_text, text_of_word};

verus! {

/// The number of entries of the table.
pub const DEFAULT_CODES: usize = 268;

/// The code of entry `i` of the table: its place up to 256, and from 0xF000
/// on behind that.
pub open spec fn default_code(i: int) -> int {
    if i <= 256 {
        i
    } else {
        0xF000 + (i - 257)
    }
}

/// The texts of an entry.
pub open spec fn texts_of(code: CharEncoding) -> Seq<Seq<char>> {
    Seq::new(code.text@.len(), |k: int| code.text@[k]@)
}


/// The texts of the entries 0 to 31 of the table.
pub open spec fn default_texts_from_0(i: int) -> Seq<Seq<char>> {
    if i == 0 {
        seq!["█"@]
    } else if i == 1 {
        seq![" "@, " "@]
    } else if i == 2 {
        seq!["０"@, "0"@]
    } else if i == 3 {
        seq!["１"@, "1"@]
    } else if i == 4 {
        seq!["２"@, "2"@]
    } else if i == 5 {
        seq!["３"@, "3"@]
    } else if i == 6 {
        seq!["４"@, "4"@]
    } else if i == 7 {
        seq!["５"@, "5"@]
    } else if i == 8 {
        seq!["６"@, "6"@]
    } else if i == 9 {
        seq!["７"@, "7"@]
    } else if i == 10 {
        seq!["８"@, "8"@]
    } else if i == 11 {
        seq!["９"@, "9"@]
    } else if i == 12 {
        seq!["＋"@, "+"@]
    } else if i == 13 {
        seq!["－"@, "-"@]
    } else if i == 14 {
        seq!["↵"@]
    } else if i == 15 {
        seq!["あ"@]
    } else if i == 16 {
        seq!["い"@]
    } else if i == 17 {
        seq!["う"@]
    } else if i == 18 {
        seq!["え"@]
    } else if i == 19 {
        seq!["お"@]
    } else if i == 20 {
        seq!["か"@]
    } else if i == 21 {
        seq!["き"@]
    } else if i == 22 {
        seq!["く"@]
    } else if i == 23 {
        seq!["け"@]
    } else if i == 24 {
        seq!["こ"@]
    } else if i == 25 {
        seq!["さ"@]
    } else if i == 26 {
        seq!["し"@]
    } else if i == 27 {
        seq!["す"@]
    } else if i == 28 {
        seq!["せ"@]
    } else if i == 29 {
        seq!["そ"@]
    } else if i == 30 {
        seq!["た"@]
    } else if i == 31 {
        seq!["ち"@]
    } else {
        Seq::empty()
    }
}


/// The texts of the entries 32 to 63 of the table.
pub open spec fn default_texts_from_32(i: int) -> Seq<Seq<char>> {
    if i == 32 {
        seq!["つ"@]
    } else if i == 33 {
        seq!["て"@]
    } else if i == 34 {
        seq!["と"@]
    } else if i == 35 {
        seq!["な"@]
    } else if i == 36 {
        seq!["に"@]
    } else if i == 37 {
        seq!["ぬ"@]
    } else if i == 38 {
        seq!["ね"@]
    } else if i == 39 {
        seq!["の"@]
    } else if i == 40 {
        seq!["は"@]
    } else if i == 41 {
        seq!["ひ"@]
    } else if i == 42 {
        seq!["ふ"@]
    } else if i == 43 {
        seq!["へ"@]
    } else if i == 44 {
        seq!["ほ"@]
    } else if i == 45 {
        seq!["ま"@]
    } else if i == 46 {
        seq!["み"@]
    } else if i == 47 {
        seq!["む"@]
    } else if i == 48 {
        seq!["め"@]
    } else if i == 49 {
        seq!["も"@]
    } else if i == 50 {
        seq!["や"@]
    } else if i == 51 {
        seq!["ゆ"@]
    } else if i == 52 {
        seq!["よ"@]
    } else if i == 53 {
        seq!["ら"@]
    } else if i == 54 {
        seq!["り"@]
    } else if i == 55 {
        seq!["る"@]
    } else if i == 56 {
        seq!["れ"@]
    } else if i == 57 {
        seq!["ろ"@]
    } else if i == 58 {
        seq!["わ"@]
    } else if i == 59 {
        seq!["を"@]
    } else if i == 60 {
        seq!["ん"@]
    } else if i == 61 {
        seq!["ぁ"@]
    } else if i == 62 {
        seq!["ぃ"@]
    } else if i == 63 {
        seq!["ぅ"@]
    } else {
        Seq::empty()
    }
}


/// The texts of the entries 64 to 95 of the table.
pub open spec fn default_texts_from_64(i: int) -> Seq<Seq<char>> {
    if i == 64 {
        seq!["ぇ"@]
    } else if i == 65 {
        seq!["ぉ"@]
    } else if i == 66 {
        seq!["っ"@]
    } else if i == 67 {
        seq!["ゃ"@]
    } else if i == 68 {
        seq!["ゅ"@]
    } else if i == 69 {
        seq!["ょ"@]
    } else if i == 70 {
        seq!["が"@]
    } else if i == 71 {
        seq!["ぎ"@]
    } else if i == 72 {
        seq!["ぐ"@]
    } else if i == 73 {
        seq!["げ"@]
    } else if i == 74 {
        seq!["ご"@]
    } else if i == 75 {
        seq!["ざ"@]
    } else if i == 76 {
        seq!["じ"@]
    } else if i == 77 {
        seq!["ず"@]
    } else if i == 78 {
        seq!["ぜ"@]
    } else if i == 79 {
        seq!["ぞ"@]
    } else if i == 80 {
        seq!["だ"@]
    } else if i == 81 {
        seq!["ぢ"@]
    } else if i == 82 {
        seq!["づ"@]
    } else if i == 83 {
        seq!["で"@]
    } else if i == 84 {
        seq!["ど"@]
    } else if i == 85 {
        seq!["ば"@]
    } else if i == 86 {
        seq!["び"@]
    } else if i == 87 {
        seq!["ぶ"@]
    } else if i == 88 {
        seq!["べ"@]
    } else if i == 89 {
        seq!["ぼ"@]
    } else if i == 90 {
        seq!["ぱ"@]
    } else if i == 91 {
        seq!["ぴ"@]
    } else if i == 92 {
        seq!["ぷ"@]
    } else if i == 93 {
        seq!["ぺ"@]
    } else if i == 94 {
        seq!["ぽ"@]
    } else if i == 95 {
        seq!["ア"@]
    } else {
        Seq::empty()
    }
}


/// The texts of the entries 96 to 127 of the table.
pub open spec fn default_texts_from_96(i: int) -> Seq<Seq<char>> {
    if i == 96 {
        seq!["イ"@]
    } else if i == 97 {
        seq!["ウ"@]
    } else if i == 98 {
        seq!["エ"@]
    } else if i == 99 {
        seq!["オ"@]
    } else if i == 100 {
        seq!["カ"@]
    } else if i == 101 {
        seq!["キ"@]
    } else if i == 102 {
        seq!["ク"@]
    } else if i == 103 {
        seq!["ケ"@]
    } else if i == 104 {
        seq!["コ"@]
    } else if i == 105 {
        seq!["サ"@]
    } else if i == 106 {
        seq!["シ"@]
    } else if i == 107 {
        seq!["ス"@]
    } else if i == 108 {
        seq!["セ"@]
    } else if i == 109 {
        seq!["ソ"@]
    } else if i == 110 {
        seq!["タ"@]
    } else if i == 111 {
        seq!["チ"@]
    } else if i == 112 {
        seq!["ツ"@]
    } else if i == 113 {
        seq!["テ"@]
    } else if i == 114 {
        seq!["ト"@]
    } else if i == 115 {
        seq!["ナ"@]
    } else if i == 116 {
        seq!["ニ"@]
    } else if i == 117 {
        seq!["ヌ"@]
    } else if i == 118 {
        seq!["ネ"@]
    } else if i == 119 {
        seq!["ノ"@]
    } else if i == 120 {
        seq!["ハ"@]
    } else if i == 121 {
        seq!["ヒ"@]
    } else if i == 122 {
        seq!["フ"@]
    } else if i == 123 {
        seq!["ヘ"@]
    } else if i == 124 {
        seq!["ホ"@]
    } else if i == 125 {
        seq!["マ"@]
    } else if i == 126 {
        seq!["ミ"@]
    } else if i == 127 {
        seq!["ム"@]
    } else {
        Seq::empty()
    }
}


/// The texts of the entries 128 to 159 of the table.
pub open spec fn default_texts_from_128(i: int) -> Seq<Seq<char>> {
    if i == 128 {
        seq!["メ"@]
    } else if i == 129 {
        seq!["モ"@]
    } else if i == 130 {
        seq!["ヤ"@]
    } else if i == 131 {
        seq!["ユ"@]
    } else if i == 132 {
        seq!["ヨ"@]
    } else if i == 133 {
        seq!["ラ"@]
    } else if i == 134 {
        seq!["リ"@]
    } else if i == 135 {
        seq!["ル"@]
    } else if i == 136 {
        seq!["レ"@]
    } else if i == 137 {
        seq!["ロ"@]
    } else if i == 138 {
        seq!["ワ"@]
    } else if i == 139 {
        seq!["ヲ"@]
    } else if i == 140 {
        seq!["ン"@]
    } else if i == 141 {
        seq!["ァ"@]
    } else if i == 142 {
        seq!["ィ"@]
    } else if i == 143 {
        seq!["ゥ"@]
    } else if i == 144 {
        seq!["ェ"@]
    } else if i == 145 {
        seq!["ォ"@]
    } else if i == 146 {
        seq!["ッ"@]
    } else if i == 147 {
        seq!["ャ"@]
    } else if i == 148 {
        seq!["ュ"@]
    } else if i == 149 {
        seq!["ョ"@]
    } else if i == 150 {
        seq!["ガ"@]
    } else if i == 151 {
        seq!["ギ"@]
    } else if i == 152 {
        seq!["グ"@]
    } else if i == 153 {
        seq!["ゲ"@]
    } else if i == 154 {
        seq!["ゴ"@]
    } else if i == 155 {
        seq!["ザ"@]
    } else if i == 156 {
        seq!["ジ"@]
    } else if i == 157 {
        seq!["ズ"@]
    } else if i == 158 {
        seq!["ゼ"@]
    } else if i == 159 {
        seq!["ゾ"@]
    } else {
        Seq::empty()
    }
}


/// The texts of the entries 160 to 191 of the table.
pub open spec fn default_texts_from_160(i: int) -> Seq<Seq<char>> {
    if i == 160 {
        seq!["ダ"@]
    } else if i == 161 {
        seq!["ヂ"@]
    } else if i == 162 {
        seq!["ヅ"@]
    } else if i == 163 {
        seq!["デ"@]
    } else if i == 164 {
        seq!["ド"@]
    } else if i == 165 {
        seq!["バ"@]
    } else if i == 166 {
        seq!["ビ"@]
    } else if i == 167 {
        seq!["ブ"@]
    } else if i == 168 {
        seq!["ベ"@]
    } else if i == 169 {
        seq!["ボ"@]
    } else if i == 170 {
        seq!["パ"@]
    } else if i == 171 {
        seq!["ピ"@]
    } else if i == 172 {
        seq!["プ"@]
    } else if i == 173 {
        seq!["ペ"@]
    } else if i == 174 {
        seq!["ポ"@]
    } else if i == 175 {
        seq!["ヴ"@]
    } else if i == 176 {
        seq!["ー"@, "—"@, "–"@]
    } else if i == 177 {
        seq!["～"@, "~"@]
    } else if i == 178 {
        seq!["…"@]
    } else if i == 179 {
        seq!["、"@, ","@]
    } else if i == 180 {
        seq!["。"@]
    } else if i == 181 {
        seq!["（"@, "("@]
    } else if i == 182 {
        seq!["）"@, ")"@]
    } else if i == 183 {
        seq!["「"@, "“"@]
    } else if i == 184 {
        seq!["」"@, "”"@]
    } else if i == 185 {
        seq!["．"@, "."@]
    } else if i == 186 {
        seq!["•"@]
    } else if i == 187 {
        seq!["！"@, "!"@]
    } else if i == 188 {
        seq!["？"@, "?"@]
    } else if i == 189 {
        seq!["＆"@, "&"@]
    } else if i == 190 {
        seq!["〇"@, "○"@]
    } else if i == 191 {
        seq!["✕"@]
    } else {
        Seq::empty()
    }
}


/// The texts of the entries 192 to 223 of the table.
pub open spec fn default_texts_from_192(i: int) -> Seq<Seq<char>> {
    if i == 192 {
        seq!["♥"@]
    } else if i == 193 {
        seq!["☼"@]
    } else if i == 194 {
        seq!["★"@, "*"@]
    } else if i == 195 {
        seq!["🌀"@]
    } else if i == 196 {
        seq!["♪"@]
    } else if i == 197 {
        seq!["💢"@]
    } else if i == 198 {
        seq!["⤴"@]
    } else if i == 199 {
        seq!["⤵"@]
    } else if i == 200 {
        seq!["→"@]
    } else if i == 201 {
        seq!["←"@]
    } else if i == 202 {
        seq!["＄"@, "$"@]
    } else if i == 203 {
        seq!["％"@, "%"@]
    } else if i == 204 {
        seq!["Ａ"@, "A"@, "a"@]
    } else if i == 205 {
        seq!["Ｂ"@, "B"@, "b"@]
    } else if i == 206 {
        seq!["Ｃ"@, "C"@, "c"@]
    } else if i == 207 {
        seq!["Ｄ"@, "D"@, "d"@]
    } else if i == 208 {
        seq!["Ｅ"@, "E"@, "e"@]
    } else if i == 209 {
        seq!["Ｆ"@, "F"@, "f"@]
    } else if i == 210 {
        seq!["Ｇ"@, "G"@, "g"@]
    } else if i == 211 {
        seq!["Ｈ"@, "H"@, "h"@]
    } else if i == 212 {
        seq!["Ｉ"@, "I"@, "i"@]
    } else if i == 213 {
        seq!["Ｊ"@, "J"@, "j"@]
    } else if i == 214 {
        seq!["Ｋ"@, "K"@, "k"@]
    } else if i == 215 {
        seq!["Ｌ"@, "L"@, "l"@]
    } else if i == 216 {
        seq!["Ｍ"@, "M"@, "m"@]
    } else if i == 217 {
        seq!["Ｎ"@, "N"@, "n"@]
    } else if i == 218 {
        seq!["Ｏ"@, "O"@, "o"@]
    } else if i == 219 {
        seq!["Ｐ"@, "P"@, "p"@]
    } else if i == 220 {
        seq!["Ｑ"@, "Q"@, "q"@]
    } else if i == 221 {
        seq!["Ｒ"@, "R"@, "r"@]
    } else if i == 222 {
        seq!["Ｓ"@, "S"@, "s"@]
    } else if i == 223 {
        seq!["Ｔ"@, "T"@, "t"@]
    } else {
        Seq::empty()
    }
}


/// The texts of the entries 224 to 255 of the table.
pub open spec fn default_texts_from_224(i: int) -> Seq<Seq<char>> {
    if i == 224 {
        seq!["Ｕ"@, "U"@, "u"@]
    } else if i == 225 {
        seq!["Ｖ"@, "V"@, "v"@]
    } else if i == 226 {
        seq!["Ｗ"@, "W"@, "w"@]
    } else if i == 227 {
        seq!["Ｘ"@, "X"@, "x"@]
    } else if i == 228 {
        seq!["Ｙ"@, "Y"@, "y"@]
    } else if i == 229 {
        seq!["Ｚ"@, "Z"@, "z"@]
    } else if i == 230 {
        seq!["¡"@]
    } else if i == 231 {
        seq!["_"@]
    } else if i == 232 {
        seq!["†"@]
    } else if i == 233 {
        seq!["😄"@]
    } else if i == 234 {
        seq!["😣"@]
    } else if i == 235 {
        seq!["😤"@]
    } else if i == 236 {
        seq!["😑"@]
    } else if i == 237 {
        seq!["😵"@]
    } else if i == 238 {
        seq!["😢"@]
    } else if i == 239 {
        seq!["🐱"@]
    } else if i == 240 {
        seq!["⏱"@]
    } else if i == 241 {
        seq!["🎂"@]
    } else if i == 242 {
        seq!["🎁"@]
    } else if i == 243 {
        seq!["📱"@]
    } else if i == 244 {
        seq!["🏢"@]
    } else if i == 245 {
        seq!["💼"@]
    } else if i == 246 {
        seq!["🍙"@]
    } else if i == 247 {
        seq!["🍰"@]
    } else if i == 248 {
        seq!["✨"@]
    } else if i == 249 {
        seq!["🟥"@]
    } else if i == 250 {
        seq![""@]
    } else if i == 251 {
        seq![""@]
    } else if i == 252 {
        seq![""@]
    } else if i == 253 {
        seq![""@]
    } else if i == 254 {
        seq![""@]
    } else if i == 255 {
        seq![""@]
    } else {
        Seq::empty()
    }
}


/// The texts of the entries 256 to 267 of the table.
pub open spec fn default_texts_from_256(i: int) -> Seq<Seq<char>> {
    if i == 256 {
        seq![""@]
    } else if i == 257 {
        seq!["<br>"@]
    } else if i == 258 {
        seq!["<hr>"@]
    } else if i == 259 {
        seq!["{username}"@]
    } else if i == 260 {
        seq!["{charname}"@]
    } else if i == 261 {
        seq!["{statement}"@]
    } else if i == 262 {
        seq!["{question1}"@]
    } else if i == 263 {
        seq!["{question2}"@]
    } else if i == 264 {
        seq!["{variable}"@]
    } else if i == 265 {
        seq!["{pronoun}"@]
    } else if i == 266 {
        seq!["{nickname}"@]
    } else if i == 267 {
        seq!["{owner}"@]
    } else {
        Seq::empty()
    }
}


/// The texts of entry `i` of the table: the first is the one shown, the
/// others stand for the same code.
pub open spec fn default_texts(i: int) -> Seq<Seq<char>> {
    if i < 32 {
        default_texts_from_0(i)
    } else if i < 64 {
        default_texts_from_32(i)
    } else if i < 96 {
        default_texts_from_64(i)
    } else if i < 128 {
        default_texts_from_96(i)
    } else if i < 160 {
        default_texts_from_128(i)
    } else if i < 192 {
        default_texts_from_160(i)
    } else if i < 224 {
        default_texts_from_192(i)
    } else if i < 256 {
        default_texts_from_224(i)
    } else {
        default_texts_from_256(i)
    }
}

/// Whether each entry has the code and the texts of its place.
pub open spec fn codes_in_place(codes: Seq<CharEncoding>) -> bool {
    forall|i: int|
        0 <= i < codes.len() ==> (#[trigger] codes[i]).data == default_code(i) && codes[i].text@.len()
            > 0 && texts_of(codes[i]) == default_texts(i)
}

/// Puts an entry with one text behind the others.
fn add_one(codes: &mut Vec<CharEncoding>, data: u16, a: &str)
    requires
        codes_in_place(old(codes)@),
        data == default_code(old(codes)@.len() as int),
        default_texts(old(codes)@.len() as int) == seq![a@],
    ensures
        codes_in_place(final(codes)@),
        final(codes)@.len() == old(codes)@.len() + 1,
{
    let mut text: Vec<String> = Vec::new();
    text.push(a.to_owned());
    let entry = CharEncoding { data, text };
    assert(texts_of(entry) =~= seq![a@]);
    codes.push(entry);
}

/// Puts an entry with two texts behind the others.
fn add_two(codes: &mut Vec<CharEncoding>, data: u16, a: &str, b: &str)
    requires
        codes_in_place(old(codes)@),
        data == default_code(old(codes)@.len() as int),
        default_texts(old(codes)@.len() as int) == seq![a@, b@],
    ensures
        codes_in_place(final(codes)@),
        final(codes)@.len() == old(codes)@.len() + 1,
{
    let mut text: Vec<String> = Vec::new();
    text.push(a.to_owned());
    text.push(b.to_owned());
    let entry = CharEncoding { data, text };
    assert(texts_of(entry) =~= seq![a@, b@]);
    codes.push(entry);
}

/// Puts an entry with three texts behind the others.
fn add_three(codes: &mut Vec<CharEncoding>, data: u16, a: &str, b: &str, c: &str)
    requires
        codes_in_place(old(codes)@),
        data == default_code(old(codes)@.len() as int),
        default_texts(old(codes)@.len() as int) == seq![a@, b@, c@],
    ensures
        codes_in_place(final(codes)@),
        final(codes)@.len() == old(codes)@.len() + 1,
{
    let mut text: Vec<String> = Vec::new();
    text.push(a.to_owned());
    text.push(b.to_owned());
    text.push(c.to_owned());
    let entry = CharEncoding { data, text };
    assert(texts_of(entry) =~= seq![a@, b@, c@]);
    codes.push(entry);
}


/// Puts the entries 0 to 31 of the table behind the others.
fn add_codes_from_0(codes: &mut Vec<CharEncoding>)
    requires
        codes_in_place(old(codes)@),
        old(codes)@.len() == 0,
    ensures
        codes_in_place(final(codes)@),
        final(codes)@.len() == 32,
{
    add_one(codes, 0, "█");
    add_two(codes, 1, " ", " ");
    add_two(codes, 2, "０", "0");
    add_two(codes, 3, "１", "1");
    add_two(codes, 4, "２", "2");
    add_two(codes, 5, "３", "3");
    add_two(codes, 6, "４", "4");
    add_two(codes, 7, "５", "5");
    add_two(codes, 8, "６", "6");
    add_two(codes, 9, "７", "7");
    add_two(codes, 10, "８", "8");
    add_two(codes, 11, "９", "9");
    add_two(codes, 12, "＋", "+");
    add_two(codes, 13, "－", "-");
    add_one(codes, 14, "↵");
    add_one(codes, 15, "あ");
    add_one(codes, 16, "い");
    add_one(codes, 17, "う");
    add_one(codes, 18, "え");
    add_one(codes, 19, "お");
    add_one(codes, 20, "か");
    add_one(codes, 21, "き");
    add_one(codes, 22, "く");
    add_one(codes, 23, "け");
    add_one(codes, 24, "こ");
    add_one(codes, 25, "さ");
    add_one(codes, 26, "し");
    add_one(codes, 27, "す");
    add_one(codes, 28, "せ");
    add_one(codes, 29, "そ");
    add_one(codes, 30, "た");
    add_one(codes, 31, "ち");
}

/// Puts the entries 32 to 63 of the table behind the others.
fn add_codes_from_32(codes: &mut Vec<CharEncoding>)
    requires
        codes_in_place(old(codes)@),
        old(codes)@.len() == 32,
    ensures
        codes_in_place(final(codes)@),
        final(codes)@.len() == 64,
{
    add_one(codes, 32, "つ");
    add_one(codes, 33, "て");
    add_one(codes, 34, "と");
    add_one(codes, 35, "な");
    add_one(codes, 36, "に");
    add_one(codes, 37, "ぬ");
    add_one(codes, 38, "ね");
    add_one(codes, 39, "の");
    add_one(codes, 40, "は");
    add_one(codes, 41, "ひ");
    add_one(codes, 42, "ふ");
    add_one(codes, 43, "へ");
    add_one(codes, 44, "ほ");
    add_one(codes, 45, "ま");
    add_one(codes, 46, "み");
    add_one(codes, 47, "む");
    add_one(codes, 48, "め");
    add_one(codes, 49, "も");
    add_one(codes, 50, "や");
    add_one(codes, 51, "ゆ");
    add_one(codes, 52, "よ");
    add_one(codes, 53, "ら");
    add_one(codes, 54, "り");
    add_one(codes, 55, "る");
    add_one(codes, 56, "れ");
    add_one(codes, 57, "ろ");
    add_one(codes, 58, "わ");
    add_one(codes, 59, "を");
    add_one(codes, 60, "ん");
    add_one(codes, 61, "ぁ");
    add_one(codes, 62, "ぃ");
    add_one(codes, 63, "ぅ");
}

/// Puts the entries 64 to 95 of the table behind the others.
fn add_codes_from_64(codes: &mut Vec<CharEncoding>)
    requires
        codes_in_place(old(codes)@),
        old(codes)@.len() == 64,
    ensures
        codes_in_place(final(codes)@),
        final(codes)@.len() == 96,
{
    add_one(codes, 64, "ぇ");
    add_one(codes, 65, "ぉ");
    add_one(codes, 66, "っ");
    add_one(codes, 67, "ゃ");
    add_one(codes, 68, "ゅ");
    add_one(codes, 69, "ょ");
    add_one(codes, 70, "が");
    add_one(codes, 71, "ぎ");
    add_one(codes, 72, "ぐ");
    add_one(codes, 73, "げ");
    add_one(codes, 74, "ご");
    add_one(codes, 75, "ざ");
    add_one(codes, 76, "じ");
    add_one(codes, 77, "ず");
    add_one(codes, 78, "ぜ");
    add_one(codes, 79, "ぞ");
    add_one(codes, 80, "だ");
    add_one(codes, 81, "ぢ");
    add_one(codes, 82, "づ");
    add_one(codes, 83, "で");
    add_one(codes, 84, "ど");
    add_one(codes, 85, "ば");
    add_one(codes, 86, "び");
    add_one(codes, 87, "ぶ");
    add_one(codes, 88, "べ");
    add_one(codes, 89, "ぼ");
    add_one(codes, 90, "ぱ");
    add_one(codes, 91, "ぴ");
    add_one(codes, 92, "ぷ");
    add_one(codes, 93, "ぺ");
    add_one(codes, 94, "ぽ");
    add_one(codes, 95, "ア");
}

/// Puts the entries 96 to 127 of the table behind the others.
fn add_codes_from_96(codes: &mut Vec<CharEncoding>)
    requires
        codes_in_place(old(codes)@),
        old(codes)@.len() == 96,
    ensures
        codes_in_place(final(codes)@),
        final(codes)@.len() == 128,
{
    add_one(codes, 96, "イ");
    add_one(codes, 97, "ウ");
    add_one(codes, 98, "エ");
    add_one(codes, 99, "オ");
    add_one(codes, 100, "カ");
    add_one(codes, 101, "キ");
    add_one(codes, 102, "ク");
    add_one(codes, 103, "ケ");
    add_one(codes, 104, "コ");
    add_one(codes, 105, "サ");
    add_one(codes, 106, "シ");
    add_one(codes, 107, "ス");
    add_one(codes, 108, "セ");
    add_one(codes, 109, "ソ");
    add_one(codes, 110, "タ");
    add_one(codes, 111, "チ");
    add_one(codes, 112, "ツ");
    add_one(codes, 113, "テ");
    add_one(codes, 114, "ト");
    add_one(codes, 115, "ナ");
    add_one(codes, 116, "ニ");
    add_one(codes, 117, "ヌ");
    add_one(codes, 118, "ネ");
    add_one(codes, 119, "ノ");
    add_one(codes, 120, "ハ");
    add_one(codes, 121, "ヒ");
    add_one(codes, 122, "フ");
    add_one(codes, 123, "ヘ");
    add_one(codes, 124, "ホ");
    add_one(codes, 125, "マ");
    add_one(codes, 126, "ミ");
    add_one(codes, 127, "ム");
}

/// Puts the entries 128 to 159 of the table behind the others.
fn add_codes_from_128(codes: &mut Vec<CharEncoding>)
    requires
        codes_in_place(old(codes)@),
        old(codes)@.len() == 128,
    ensures
        codes_in_place(final(codes)@),
        final(codes)@.len() == 160,
{
    add_one(codes, 128, "メ");
    add_one(codes, 129, "モ");
    add_one(codes, 130, "ヤ");
    add_one(codes, 131, "ユ");
    add_one(codes, 132, "ヨ");
    add_one(codes, 133, "ラ");
    add_one(codes, 134, "リ");
    add_one(codes, 135, "ル");
    add_one(codes, 136, "レ");
    add_one(codes, 137, "ロ");
    add_one(codes, 138, "ワ");
    add_one(codes, 139, "ヲ");
    add_one(codes, 140, "ン");
    add_one(codes, 141, "ァ");
    add_one(codes, 142, "ィ");
    add_one(codes, 143, "ゥ");
    add_one(codes, 144, "ェ");
    add_one(codes, 145, "ォ");
    add_one(codes, 146, "ッ");
    add_one(codes, 147, "ャ");
    add_one(codes, 148, "ュ");
    add_one(codes, 149, "ョ");
    add_one(codes, 150, "ガ");
    add_one(codes, 151, "ギ");
    add_one(codes, 152, "グ");
    add_one(codes, 153, "ゲ");
    add_one(codes, 154, "ゴ");
    add_one(codes, 155, "ザ");
    add_one(codes, 156, "ジ");
    add_one(codes, 157, "ズ");
    add_one(codes, 158, "ゼ");
    add_one(codes, 159, "ゾ");
}

/// Puts the entries 160 to 191 of the table behind the others.
fn add_codes_from_160(codes: &mut Vec<CharEncoding>)
    requires
        codes_in_place(old(codes)@),
        old(codes)@.len() == 160,
    ensures
        codes_in_place(final(codes)@),
        final(codes)@.len() == 192,
{
    add_one(codes, 160, "ダ");
    add_one(codes, 161, "ヂ");
    add_one(codes, 162, "ヅ");
    add_one(codes, 163, "デ");
    add_one(codes, 164, "ド");
    add_one(codes, 165, "バ");
    add_one(codes, 166, "ビ");
    add_one(codes, 167, "ブ");
    add_one(codes, 168, "ベ");
    add_one(codes, 169, "ボ");
    add_one(codes, 170, "パ");
    add_one(codes, 171, "ピ");
    add_one(codes, 172, "プ");
    add_one(codes, 173, "ペ");
    add_one(codes, 174, "ポ");
    add_one(codes, 175, "ヴ");
    add_three(codes, 176, "ー", "—", "–");
    add_two(codes, 177, "～", "~");
    add_one(codes, 178, "…");
    add_two(codes, 179, "、", ",");
    add_one(codes, 180, "。");
    add_two(codes, 181, "（", "(");
    add_two(codes, 182, "）", ")");
    add_two(codes, 183, "「", "“");
    add_two(codes, 184, "」", "”");
    add_two(codes, 185, "．", ".");
    add_one(codes, 186, "•");
    add_two(codes, 187, "！", "!");
    add_two(codes, 188, "？", "?");
    add_two(codes, 189, "＆", "&");
    add_two(codes, 190, "〇", "○");
    add_one(codes, 191, "✕");
}

/// Puts the entries 192 to 223 of the table behind the others.
fn add_codes_from_192(codes: &mut Vec<CharEncoding>)
    requires
        codes_in_place(old(codes)@),
        old(codes)@.len() == 192,
    ensures
        codes_in_place(final(codes)@),
        final(codes)@.len() == 224,
{
    add_one(codes, 192, "♥");
    add_one(codes, 193, "☼");
    add_two(codes, 194, "★", "*");
    add_one(codes, 195, "🌀");
    add_one(codes, 196, "♪");
    add_one(codes, 197, "💢");
    add_one(codes, 198, "⤴");
    add_one(codes, 199, "⤵");
    add_one(codes, 200, "→");
    add_one(codes, 201, "←");
    add_two(codes, 202, "＄", "$");
    add_two(codes, 203, "％", "%");
    add_three(codes, 204, "Ａ", "A", "a");
    add_three(codes, 205, "Ｂ", "B", "b");
    add_three(codes, 206, "Ｃ", "C", "c");
    add_three(codes, 207, "Ｄ", "D", "d");
    add_three(codes, 208, "Ｅ", "E", "e");
    add_three(codes, 209, "Ｆ", "F", "f");
    add_three(codes, 210, "Ｇ", "G", "g");
    add_three(codes, 211, "Ｈ", "H", "h");
    add_three(codes, 212, "Ｉ", "I", "i");
    add_three(codes, 213, "Ｊ", "J", "j");
    add_three(codes, 214, "Ｋ", "K", "k");
    add_three(codes, 215, "Ｌ", "L", "l");
    add_three(codes, 216, "Ｍ", "M", "m");
    add_three(codes, 217, "Ｎ", "N", "n");
    add_three(codes, 218, "Ｏ", "O", "o");
    add_three(codes, 219, "Ｐ", "P", "p");
    add_three(codes, 220, "Ｑ", "Q", "q");
    add_three(codes, 221, "Ｒ", "R", "r");
    add_three(codes, 222, "Ｓ", "S", "s");
    add_three(codes, 223, "Ｔ", "T", "t");
}

/// Puts the entries 224 to 255 of the table behind the others.
fn add_codes_from_224(codes: &mut Vec<CharEncoding>)
    requires
        codes_in_place(old(codes)@),
        old(codes)@.len() == 224,
    ensures
        codes_in_place(final(codes)@),
        final(codes)@.len() == 256,
{
    add_three(codes, 224, "Ｕ", "U", "u");
    add_three(codes, 225, "Ｖ", "V", "v");
    add_three(codes, 226, "Ｗ", "W", "w");
    add_three(codes, 227, "Ｘ", "X", "x");
    add_three(codes, 228, "Ｙ", "Y", "y");
    add_three(codes, 229, "Ｚ", "Z", "z");
    add_one(codes, 230, "¡");
    add_one(codes, 231, "_");
    add_one(codes, 232, "†");
    add_one(codes, 233, "😄");
    add_one(codes, 234, "😣");
    add_one(codes, 235, "😤");
    add_one(codes, 236, "😑");
    add_one(codes, 237, "😵");
    add_one(codes, 238, "😢");
    add_one(codes, 239, "🐱");
    add_one(codes, 240, "⏱");
    add_one(codes, 241, "🎂");
    add_one(codes, 242, "🎁");
    add_one(codes, 243, "📱");
    add_one(codes, 244, "🏢");
    add_one(codes, 245, "💼");
    add_one(codes, 246, "🍙");
    add_one(codes, 247, "🍰");
    add_one(codes, 248, "✨");
    add_one(codes, 249, "🟥");
    add_one(codes, 250, "");
    add_one(codes, 251, "");
    add_one(codes, 252, "");
    add_one(codes, 253, "");
    add_one(codes, 254, "");
    add_one(codes, 255, "");
}

/// Puts the entries 256 to 267 of the table behind the others.
fn add_codes_from_256(codes: &mut Vec<CharEncoding>)
    requires
        codes_in_place(old(codes)@),
        old(codes)@.len() == 256,
    ensures
        codes_in_place(final(codes)@),
        final(codes)@.len() == 268,
{
    add_one(codes, 256, "");
    add_one(codes, 61440, "<br>");
    add_one(codes, 61441, "<hr>");
    add_one(codes, 61442, "{username}");
    add_one(codes, 61443, "{charname}");
    add_one(codes, 61444, "{statement}");
    add_one(codes, 61445, "{question1}");
    add_one(codes, 61446, "{question2}");
    add_one(codes, 61447, "{variable}");
    add_one(codes, 61448, "{pronoun}");
    add_one(codes, 61449, "{nickname}");
    add_one(codes, 61450, "{owner}");
}

/// The table of the device as it is sold. Each entry has the code of its
/// place, so that a code is found at its place or, from 0xF000 on, as the
/// first with that code; and each entry has its texts.
pub fn get_default_char_codes() -> (codes: Vec<CharEncoding>)
    ensures
        codes@.len() == DEFAULT_CODES,
        codes_in_place(codes@),
{
    let mut codes: Vec<CharEncoding> = Vec::new();
    add_codes_from_0(&mut codes);
    add_codes_from_32(&mut codes);
    add_codes_from_64(&mut codes);
    add_codes_from_96(&mut codes);
    add_codes_from_128(&mut codes);
    add_codes_from_160(&mut codes);
    add_codes_from_192(&mut codes);
    add_codes_from_224(&mut codes);
    add_codes_from_256(&mut codes);
    codes
}

/// In a table whose entries have the codes of their places, no entry in front
/// of entry `i` has its code.
pub proof fn lemma_scan_finds_place(codes: Seq<CharEncoding>, i: int, from: int)
    requires
        codes_in_place(codes),
        0 <= from <= i < codes.len(),
    ensures
        scan_word(codes, codes[i].data, from) == shown_text(codes[i]),
    decreases i - from,
{
    if from < i {
        assert(codes[from].data == default_code(from));
        lemma_scan_finds_place(codes, i, from + 1);
    }
}

/// In a table whose entries have the codes of their places, the text of the
/// code of an entry is the text shown for that entry.
pub proof fn lemma_code_finds_entry(codes: Seq<CharEncoding>, i: int)
    requires
        codes_in_place(codes),
        0 <= i < codes.len(),
    ensures
        text_of_word(codes, codes[i].data) == shown_text(codes[i]),
{
    if i > 256 {
        lemma_scan_finds_place(codes, i, 0);
    }
}

} // verus!
