//! Decimal numbers written in Chinese numerals.
use vstd::prelude::*;
use crate::digits::Digits;
use crate::lang::{LanguageParser, NumToLangParser, NumberConvertError};
use crate::text::chars_to_string;

verus! {

pub struct Chinese {}

impl LanguageParser for Chinese {
    fn name() -> &'static str {
        "Chinese"
    }
}

/// Options for writing numbers in Chinese.
pub struct NumberToChineseParser {
    /// Write zero as 零 rather than 〇.
    prefer_ling: bool,
    /// Write a leading ten as 一十 rather than 十.
    prefer_one_ten: bool,
    /// Use the traditional forms of the units of 10^4.
    traditional: bool,
}

/// The unit of `10^(4 * place)` for `1 <= place < 12`, simplified or
/// traditional.
pub open spec fn mega_unit(place: int, traditional: bool) -> char {
    if place == 1 {
        if traditional { '萬' } else { '万' }
    } else if place == 2 {
        if traditional { '億' } else { '亿' }
    } else if place == 3 {
        '兆'
    } else if place == 4 {
        '京'
    } else if place == 5 {
        '垓'
    } else if place == 6 {
        '秭'
    } else if place == 7 {
        '穰'
    } else if place == 8 {
        if traditional { '溝' } else { '沟' }
    } else if place == 9 {
        if traditional { '澗' } else { '涧' }
    } else if place == 10 {
        '正'
    } else {
        if traditional { '載' } else { '载' }
    }
}

/// The numeral of digit `d` for `1 <= d <= 9`.
pub open spec fn digit_numeral(d: u8) -> char {
    if d == 1 {
        '一'
    } else if d == 2 {
        '二'
    } else if d == 3 {
        '三'
    } else if d == 4 {
        '四'
    } else if d == 5 {
        '五'
    } else if d == 6 {
        '六'
    } else if d == 7 {
        '七'
    } else if d == 8 {
        '八'
    } else {
        '九'
    }
}

/// The unit of a place within a section of four: none, 十, 百, 千.
pub open spec fn section_unit(sp: int) -> Seq<char> {
    if sp == 1 {
        seq!['十']
    } else if sp == 2 {
        seq!['百']
    } else if sp == 3 {
        seq!['千']
    } else {
        Seq::empty()
    }
}

/// The number of zero digits that end at place `p`, counting downwards.
pub open spec fn run_zeros(ds: Seq<u8>, p: int) -> nat
    decreases p + 1,
{
    if p < 0 || p >= ds.len() || ds[p] != 0 {
        0
    } else {
        1 + run_zeros(ds, p - 1)
    }
}

/// Whether place `p` closes a section of four places, or the number.
pub open spec fn closes_section(ds: Seq<u8>, p: int) -> bool {
    p % 4 == 3 || p == ds.len() - 1
}

/// Whether place `p` closes a section that is written and needs a unit past
/// the largest one.
pub open spec fn needs_missing_unit(ds: Seq<u8>, p: int) -> bool {
    closes_section(ds, p) && run_zeros(ds, p) < 4 && p / 4 >= 12
}

impl NumberToChineseParser {
    pub closed spec fn spec_prefer_ling(&self) -> bool {
        self.prefer_ling
    }

    pub closed spec fn spec_prefer_one_ten(&self) -> bool {
        self.prefer_one_ten
    }

    pub closed spec fn spec_traditional(&self) -> bool {
        self.traditional
    }

    /// The zero numeral.
    pub open spec fn spec_zero(&self) -> char {
        if self.spec_prefer_ling() { '零' } else { '〇' }
    }

    /// The numeral of a digit; a digit outside 1 to 9 reads as zero.
    pub open spec fn spec_digit(&self, d: u8) -> char {
        if 1 <= d <= 9 { digit_numeral(d) } else { self.spec_zero() }
    }

    /// The text, written backwards, for place `sp` of the section starting at
    /// place `start`: a zero that separates it from a lower non-zero place,
    /// or its unit and numeral. A one in the tens place is left out when it
    /// leads the number, unless `prefer_one_ten`.
    pub open spec fn section_place_text(&self, ds: Seq<u8>, start: int, sp: int) -> Seq<char> {
        let d = ds[start + sp];
        if d == 0 {
            if sp != 0 && ds[start + sp - 1] != 0 { seq![self.spec_zero()] } else { Seq::empty() }
        } else {
            section_unit(sp) + if sp == 1 && d == 1 && !self.spec_prefer_one_ten() && start + sp
                == ds.len() - 1 {
                Seq::empty()
            } else {
                seq![self.spec_digit(d)]
            }
        }
    }

    /// The backwards text of the first `len` places of the section starting
    /// at place `start`.
    pub open spec fn section_text(&self, ds: Seq<u8>, start: int, len: int) -> Seq<char>
        decreases len,
    {
        if len <= 0 {
            Seq::empty()
        } else {
            self.section_text(ds, start, len - 1) + self.section_place_text(ds, start, len - 1)
        }
    }

    /// The backwards text that place `p` adds: a zero where a section starts
    /// with zero after a non-zero place; and, where `p` closes a section that
    /// is not all zeros, the section's unit of `10^4` and its text.
    pub open spec fn place_text(&self, ds: Seq<u8>, p: int) -> Seq<char> {
        (if ds[p] == 0 && p % 4 == 0 && p != 0 && run_zeros(ds, p - 1) == 0 {
            seq![self.spec_zero()]
        } else {
            Seq::empty()
        }) + if closes_section(ds, p) && run_zeros(ds, p) < 4 {
            (if p / 4 == 0 { Seq::empty() } else { seq![mega_unit(p / 4, self.spec_traditional())] })
                + self.section_text(ds, p - p % 4, p % 4 + 1)
        } else {
            Seq::empty()
        }
    }

    /// The backwards text of places `0..k`.
    pub open spec fn backward_text(&self, ds: Seq<u8>, k: int) -> Seq<char>
        decreases k,
    {
        if k <= 0 {
            Seq::empty()
        } else {
            self.backward_text(ds, k - 1) + self.place_text(ds, k - 1)
        }
    }

    /// Zero as 零, a leading ten as 十, simplified units.
    pub fn default() -> (r: NumberToChineseParser)
        ensures
            r.spec_prefer_ling(),
            !r.spec_prefer_one_ten(),
            !r.spec_traditional(),
    {
        NumberToChineseParser { prefer_ling: true, prefer_one_ten: false, traditional: false }
    }

    /// A parser with the given options.
    pub fn new(prefer_ling: bool, prefer_one_ten: bool, traditional: bool) -> (r: NumberToChineseParser)
        ensures
            r.spec_prefer_ling() == prefer_ling,
            r.spec_prefer_one_ten() == prefer_one_ten,
            r.spec_traditional() == traditional,
    {
        NumberToChineseParser { prefer_ling, prefer_one_ten, traditional }
    }

    /// The unit of `10^(4 * place)`: empty for place 0, and an error from
    /// place 12 on.
    pub fn megaunit(&self, place: usize) -> (r: Result<&'static str, NumberConvertError>)
        ensures
            place == 0 ==> (r matches Ok(s) && s@ == Seq::<char>::empty()),
            1 <= place < 12 ==> (r matches Ok(s) && s@ == seq![mega_unit(place as int, self.spec_traditional())]),
            place >= 12 ==> r == Err::<&'static str, NumberConvertError>(NumberConvertError::NumberOutOfRange),
    {
        if place == 0 {
            proof { reveal_strlit(""); }
            return Ok("");
        }
        if place >= 12 {
            return Err(NumberConvertError::NumberOutOfRange);
        }
        let t = self.traditional;
        let s: &'static str = if place == 1 {
            if t { "萬" } else { "万" }
        } else if place == 2 {
            if t { "億" } else { "亿" }
        } else if place == 3 {
            "兆"
        } else if place == 4 {
            "京"
        } else if place == 5 {
            "垓"
        } else if place == 6 {
            "秭"
        } else if place == 7 {
            "穰"
        } else if place == 8 {
            if t { "溝" } else { "沟" }
        } else if place == 9 {
            if t { "澗" } else { "涧" }
        } else if place == 10 {
            "正"
        } else {
            if t { "載" } else { "载" }
        };
        proof {
            reveal_strlit("萬");
            reveal_strlit("万");
            reveal_strlit("億");
            reveal_strlit("亿");
            reveal_strlit("兆");
            reveal_strlit("京");
            reveal_strlit("垓");
            reveal_strlit("秭");
            reveal_strlit("穰");
            reveal_strlit("溝");
            reveal_strlit("沟");
            reveal_strlit("澗");
            reveal_strlit("涧");
            reveal_strlit("正");
            reveal_strlit("載");
            reveal_strlit("载");
        }
        Ok(s)
    }

    /// The single character of the unit of `10^(4 * place)`.
    fn unit_char(&self, place: usize) -> (r: char)
        requires
            1 <= place < 12,
        ensures
            r == mega_unit(place as int, self.spec_traditional()),
    {
        match self.megaunit(place) {
            Ok(s) => s.get_char(0),
            // every place below 12 has a unit
            Err(_) => '载',
        }
    }

    /// The numeral of `digit`; a digit outside 1 to 9 reads as zero.
    pub fn digit_to_char(&self, digit: u8) -> (r: char)
        ensures
            r == self.spec_digit(digit),
    {
        if digit > 0 && digit <= 9 {
            match digit {
                1 => '一',
                2 => '二',
                3 => '三',
                4 => '四',
                5 => '五',
                6 => '六',
                7 => '七',
                8 => '八',
                _ => '九',
            }
        } else {
            self.zero()
        }
    }

    /// The Chinese numeral of the decimal number `num`, most significant
    /// place first. Fails where `num` has no digits, or needs a unit past
    /// 10^44.
    pub fn number_to_text(&self, num: Digits) -> (r: Result<String, NumberConvertError>)
        ensures
            num.spec_digits().len() == 0 ==> r == Err::<String, NumberConvertError>(
                NumberConvertError::InvalidNumber,
            ),
            num.spec_digits().len() > 0 && (exists|p: int|
                0 <= p < num.spec_digits().len() && #[trigger] needs_missing_unit(num.spec_digits(), p))
                ==> r == Err::<String, NumberConvertError>(NumberConvertError::NumberOutOfRange),
            num.spec_digits().len() > 0 && !(exists|p: int|
                0 <= p < num.spec_digits().len() && #[trigger] needs_missing_unit(num.spec_digits(), p))
                ==> (r matches Ok(s) && s@ == self.backward_text(
                num.spec_digits(),
                num.spec_digits().len() as int,
            ).reverse()),
    {
        let ds = num.get_u8_array();
        let n = ds.len();
        if n == 0 {
            return Err(NumberConvertError::InvalidNumber);
        }
        let last_digit = n - 1;
        let mut text: Vec<char> = Vec::new();
        let mut zeros: usize = 0;
        let mut place: usize = 0;
        while place < n
            invariant
                n == ds@.len(),
                ds@ == num.spec_digits(),
                n > 0,
                last_digit == n - 1,
                place <= n,
                zeros <= place,
                zeros == run_zeros(ds@, place - 1),
                text@ == self.backward_text(ds@, place as int),
                forall|p: int| 0 <= p < place ==> !#[trigger] needs_missing_unit(ds@, p),
            decreases n - place,
        {
            let digit = ds[place];
            let ghost start_text = text@;
            if digit == 0 {
                // a section that starts with zero after a non-zero place
                if place % 4 == 0 && place != 0 {
                    if zeros == 0 {
                        text.push(self.zero());
                    }
                }
                zeros = zeros + 1;
            } else {
                zeros = 0;
            }
            let ghost gap_text = text@;
            if place % 4 == 3 || place == last_digit {
                let section_start = place - place % 4;
                if zeros < 4 {
                    if place / 4 >= 12 {
                        assert(needs_missing_unit(ds@, place as int));
                        return Err(NumberConvertError::NumberOutOfRange);
                    }
                    if place / 4 > 0 {
                        text.push(self.unit_char(place / 4));
                    }
                    let ghost unit_text = text@;
                    let mut sp: usize = 0;
                    while sp <= place % 4
                        invariant
                            n == ds@.len(),
                            last_digit == n - 1,
                            place < n,
                            section_start == place - place % 4,
                            sp <= place % 4 + 1,
                            text@ == unit_text + self.section_text(ds@, section_start as int, sp as int),
                        decreases place % 4 + 1 - sp,
                    {
                        let ghost sp_text = text@;
                        let section_digit = ds[section_start + sp];
                        if section_digit == 0 {
                            // a zero next to a lower non-zero place
                            if sp != 0 && ds[section_start + sp - 1] != 0 {
                                text.push(self.zero());
                            }
                        } else {
                            if sp == 1 {
                                text.push('十');
                            } else if sp == 2 {
                                text.push('百');
                            } else if sp == 3 {
                                text.push('千');
                            }
                            if !(sp == 1 && section_digit == 1 && !self.prefer_one_ten && section_start + sp
                                == last_digit) {
                                text.push(self.digit_to_char(section_digit));
                            }
                        }
                        assert(text@ =~= sp_text + self.section_place_text(
                            ds@,
                            section_start as int,
                            sp as int,
                        ));
                        sp = sp + 1;
                    }
                }
            }
            assert(text@ =~= start_text + self.place_text(ds@, place as int));
            place = place + 1;
        }
        let mut out: Vec<char> = Vec::new();
        let mut i: usize = text.len();
        while i > 0
            invariant
                i <= text@.len(),
                out@ == text@.subrange(i as int, text@.len() as int).reverse(),
            decreases i,
        {
            let ghost i0 = i;
            i = i - 1;
            out.push(text[i]);
            assert(out@ =~= text@.subrange(i as int, text@.len() as int).reverse());
        }
        assert(text@.subrange(0, text@.len() as int) =~= text@);
        assert(!(exists|p: int| 0 <= p < ds@.len() && #[trigger] needs_missing_unit(ds@, p)));
        Ok(chars_to_string(&out))
    }

    pub fn zero(&self) -> (r: char)
        ensures
            r == self.spec_zero(),
    {
        if self.prefer_ling {
            '零'
        } else {
            '〇'
        }
    }
}

} // verus!

verus! {

impl NumToLangParser for NumberToChineseParser {
    fn number_to_text(&self, n: Digits) -> Result<String, NumberConvertError> {
        NumberToChineseParser::number_to_text(self, n)
    }
}

} // verus!
