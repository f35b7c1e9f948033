//! The reply and forward markers that may open a subject line, in many
//! languages, compared after lowercasing.

use vstd::prelude::*;
use crate::text::{char_is_alphabetic, is_alphabetic, word_is};

verus! {

/// A reply marker (lowercase), such as `re`, `aw`, `sv` or `回复`.
pub open spec fn is_reply_word(w: Seq<char>) -> bool {
    w == "re"@
    || w == "res"@
    || w == "resp"@
    || w == "resposta"@
    || w == "respuesta"@
    || w == "rsp"@
    || w == "ref"@
    || w == "réf"@
    || w == "rép"@
    || w == "rep"@
    || w == "réponse"@
    || w == "reponse"@
    || w == "aw"@
    || w == "antw"@
    || w == "antwort"@
    || w == "antwoord"@
    || w == "sv"@
    || w == "svar"@
    || w == "svara"@
    || w == "vast"@
    || w == "vastaus"@
    || w == "vastus"@
    || w == "vá"@
    || w == "va"@
    || w == "válasz"@
    || w == "valasz"@
    || w == "r"@
    || w == "ri"@
    || w == "rif"@
    || w == "odp"@
    || w == "odpowiedź"@
    || w == "odpowiedz"@
    || w == "odpov"@
    || w == "odg"@
    || w == "odgovor"@
    || w == "απ"@
    || w == "σχετ"@
    || w == "απάντηση"@
    || w == "ynt"@
    || w == "yn"@
    || w == "yan"@
    || w == "yanıt"@
    || w == "yanit"@
    || w == "atb"@
    || w == "atb."@
    || w == "atbilde"@
    || w == "ateb"@
    || w == "ats"@
    || w == "ats."@
    || w == "atsakymas"@
    || w == "bls"@
    || w == "balas"@
    || w == "השב"@
    || w == "תשובה"@
    || w == "رد"@
    || w == "پاسخ"@
    || w == "отв"@
    || w == "ответ"@
    || w == "відп"@
    || w == "відповідь"@
    || w == "отг"@
    || w == "отговор"@
    || w == "回复"@
    || w == "回覆"@
    || w == "答复"@
    || w == "答覆"@
    || w == "返信"@
    || w == "회신"@
    || w == "답장"@
    || w == "ตอบกลับ"@
    || w == "பதில்"@
    || w == "trả lời"@
}

/// A forward marker (lowercase), such as `fwd`, `wg`, `tr` or `转发`.
pub open spec fn is_forward_word(w: Seq<char>) -> bool {
    w == "fwd"@
    || w == "fw"@
    || w == "rv"@
    || w == "reenviado"@
    || w == "enc"@
    || w == "encaminhado"@
    || w == "tr"@
    || w == "transfert"@
    || w == "wg"@
    || w == "weitergeleitet"@
    || w == "doorst"@
    || w == "doorgestuurd"@
    || w == "vs"@
    || w == "videresendt"@
    || w == "vb"@
    || w == "vidarebefordrat"@
    || w == "vl"@
    || w == "välitetty"@
    || w == "ed"@
    || w == "edastatud"@
    || w == "fs"@
    || w == "framsenda"@
    || w == "i"@
    || w == "inoltro"@
    || w == "inoltrato"@
    || w == "pd"@
    || w == "podaj dalej"@
    || w == "przekazane"@
    || w == "prosl"@
    || w == "proslijeđeno"@
    || w == "πρθ"@
    || w == "προωθ"@
    || w == "προωθημένο"@
    || w == "i\u{307}lt"@
    || w == "ilt"@
    || w == "i\u{307}let"@
    || w == "ilet"@
    || w == "i\u{307}letilen"@
    || w == "iletilen"@
    || w == "yml"@
    || w == "ymlaen"@
    || w == "pārs"@
    || w == "pārs."@
    || w == "pārsūtīts"@
    || w == "persiųsta"@
    || w == "trs"@
    || w == "terusan"@
    || w == "teruskan"@
    || w == "továbbítás"@
    || w == "הועבר"@
    || w == "העברה"@
    || w == "إعادة توجيه"@
    || w == "перес"@
    || w == "переслано"@
    || w == "пересылка"@
    || w == "пре"@
    || w == "препратено"@
    || w == "转发"@
    || w == "转寄"@
    || w == "轉寄"@
    || w == "転送"@
    || w == "전달"@
    || w == "ส่งต่อ"@
    || w == "முன்னனுப்பு"@
    || w == "chuyển tiếp"@
}

/// A reply or forward marker.
pub open spec fn is_known_word(w: Seq<char>) -> bool {
    is_reply_word(w) || is_forward_word(w)
}

/// A word that may be an unlisted marker: one to four characters, all alphabetic.
pub open spec fn is_generic_word(w: Seq<char>) -> bool {
    &&& 0 < w.len() <= MAX_GENERIC_PREFIX_CHARS
    &&& forall|i: int| 0 <= i < w.len() ==> #[trigger] is_alphabetic(w[i])
}

/// Longest unlisted word that is taken for a marker, in characters.
pub const MAX_GENERIC_PREFIX_CHARS: usize = 4;

/// Whether `w` is a reply marker.
pub fn is_re_prefix(w: &Vec<char>) -> (r: bool)
    ensures
        r == is_reply_word(w@),
{
    word_is(w, "re")
    || word_is(w, "res")
    || word_is(w, "resp")
    || word_is(w, "resposta")
    || word_is(w, "respuesta")
    || word_is(w, "rsp")
    || word_is(w, "ref")
    || word_is(w, "réf")
    || word_is(w, "rép")
    || word_is(w, "rep")
    || word_is(w, "réponse")
    || word_is(w, "reponse")
    || word_is(w, "aw")
    || word_is(w, "antw")
    || word_is(w, "antwort")
    || word_is(w, "antwoord")
    || word_is(w, "sv")
    || word_is(w, "svar")
    || word_is(w, "svara")
    || word_is(w, "vast")
    || word_is(w, "vastaus")
    || word_is(w, "vastus")
    || word_is(w, "vá")
    || word_is(w, "va")
    || word_is(w, "válasz")
    || word_is(w, "valasz")
    || word_is(w, "r")
    || word_is(w, "ri")
    || word_is(w, "rif")
    || word_is(w, "odp")
    || word_is(w, "odpowiedź")
    || word_is(w, "odpowiedz")
    || word_is(w, "odpov")
    || word_is(w, "odg")
    || word_is(w, "odgovor")
    || word_is(w, "απ")
    || word_is(w, "σχετ")
    || word_is(w, "απάντηση")
    || word_is(w, "ynt")
    || word_is(w, "yn")
    || word_is(w, "yan")
    || word_is(w, "yanıt")
    || word_is(w, "yanit")
    || word_is(w, "atb")
    || word_is(w, "atb.")
    || word_is(w, "atbilde")
    || word_is(w, "ateb")
    || word_is(w, "ats")
    || word_is(w, "ats.")
    || word_is(w, "atsakymas")
    || word_is(w, "bls")
    || word_is(w, "balas")
    || word_is(w, "השב")
    || word_is(w, "תשובה")
    || word_is(w, "رد")
    || word_is(w, "پاسخ")
    || word_is(w, "отв")
    || word_is(w, "ответ")
    || word_is(w, "відп")
    || word_is(w, "відповідь")
    || word_is(w, "отг")
    || word_is(w, "отговор")
    || word_is(w, "回复")
    || word_is(w, "回覆")
    || word_is(w, "答复")
    || word_is(w, "答覆")
    || word_is(w, "返信")
    || word_is(w, "회신")
    || word_is(w, "답장")
    || word_is(w, "ตอบกลับ")
    || word_is(w, "பதில்")
    || word_is(w, "trả lời")
}

/// Whether `w` is a forward marker.
pub fn is_fwd_prefix(w: &Vec<char>) -> (r: bool)
    ensures
        r == is_forward_word(w@),
{
    word_is(w, "fwd")
    || word_is(w, "fw")
    || word_is(w, "rv")
    || word_is(w, "reenviado")
    || word_is(w, "enc")
    || word_is(w, "encaminhado")
    || word_is(w, "tr")
    || word_is(w, "transfert")
    || word_is(w, "wg")
    || word_is(w, "weitergeleitet")
    || word_is(w, "doorst")
    || word_is(w, "doorgestuurd")
    || word_is(w, "vs")
    || word_is(w, "videresendt")
    || word_is(w, "vb")
    || word_is(w, "vidarebefordrat")
    || word_is(w, "vl")
    || word_is(w, "välitetty")
    || word_is(w, "ed")
    || word_is(w, "edastatud")
    || word_is(w, "fs")
    || word_is(w, "framsenda")
    || word_is(w, "i")
    || word_is(w, "inoltro")
    || word_is(w, "inoltrato")
    || word_is(w, "pd")
    || word_is(w, "podaj dalej")
    || word_is(w, "przekazane")
    || word_is(w, "prosl")
    || word_is(w, "proslijeđeno")
    || word_is(w, "πρθ")
    || word_is(w, "προωθ")
    || word_is(w, "προωθημένο")
    || word_is(w, "i\u{307}lt")
    || word_is(w, "ilt")
    || word_is(w, "i\u{307}let")
    || word_is(w, "ilet")
    || word_is(w, "i\u{307}letilen")
    || word_is(w, "iletilen")
    || word_is(w, "yml")
    || word_is(w, "ymlaen")
    || word_is(w, "pārs")
    || word_is(w, "pārs.")
    || word_is(w, "pārsūtīts")
    || word_is(w, "persiųsta")
    || word_is(w, "trs")
    || word_is(w, "terusan")
    || word_is(w, "teruskan")
    || word_is(w, "továbbítás")
    || word_is(w, "הועבר")
    || word_is(w, "העברה")
    || word_is(w, "إعادة توجيه")
    || word_is(w, "перес")
    || word_is(w, "переслано")
    || word_is(w, "пересылка")
    || word_is(w, "пре")
    || word_is(w, "препратено")
    || word_is(w, "转发")
    || word_is(w, "转寄")
    || word_is(w, "轉寄")
    || word_is(w, "転送")
    || word_is(w, "전달")
    || word_is(w, "ส่งต่อ")
    || word_is(w, "முன்னனுப்பு")
    || word_is(w, "chuyển tiếp")
}

/// Whether `w` is a reply or forward marker.
pub fn is_known_prefix(w: &Vec<char>) -> (r: bool)
    ensures
        r == is_known_word(w@),
{
    is_re_prefix(w) || is_fwd_prefix(w)
}

/// Whether `w` may be an unlisted marker: at most four characters, all
/// alphabetic, and at least one.
pub fn is_generic_prefix(w: &Vec<char>) -> (r: bool)
    ensures
        r == is_generic_word(w@),
{
    let mut char_count: usize = 0;
    while char_count < w.len()
        invariant
            char_count <= w@.len(),
            char_count <= MAX_GENERIC_PREFIX_CHARS,
            forall|j: int| 0 <= j < char_count ==> #[trigger] is_alphabetic(w@[j]),
        decreases w@.len() - char_count,
    {
        if !char_is_alphabetic(w[char_count]) {
            return false;
        }
        char_count = char_count + 1;
        if char_count > MAX_GENERIC_PREFIX_CHARS {
            return false;
        }
    }
    char_count > 0
}

/// Every reply marker of the list, in lowercase, is recognised as one.
pub proof fn lemma_reply_markers_listed()
    ensures
        is_reply_word("re"@),
        is_reply_word("res"@),
        is_reply_word("resp"@),
        is_reply_word("resposta"@),
        is_reply_word("respuesta"@),
        is_reply_word("rsp"@),
        is_reply_word("ref"@),
        is_reply_word("réf"@),
        is_reply_word("rép"@),
        is_reply_word("rep"@),
        is_reply_word("réponse"@),
        is_reply_word("reponse"@),
        is_reply_word("aw"@),
        is_reply_word("antw"@),
        is_reply_word("antwort"@),
        is_reply_word("antwoord"@),
        is_reply_word("sv"@),
        is_reply_word("svar"@),
        is_reply_word("svara"@),
        is_reply_word("vast"@),
        is_reply_word("vastaus"@),
        is_reply_word("vastus"@),
        is_reply_word("vá"@),
        is_reply_word("va"@),
        is_reply_word("válasz"@),
        is_reply_word("valasz"@),
        is_reply_word("r"@),
        is_reply_word("ri"@),
        is_reply_word("rif"@),
        is_reply_word("odp"@),
        is_reply_word("odpowiedź"@),
        is_reply_word("odpowiedz"@),
        is_reply_word("odpov"@),
        is_reply_word("odg"@),
        is_reply_word("odgovor"@),
        is_reply_word("απ"@),
        is_reply_word("σχετ"@),
        is_reply_word("απάντηση"@),
        is_reply_word("ynt"@),
        is_reply_word("yn"@),
        is_reply_word("yan"@),
        is_reply_word("yanıt"@),
        is_reply_word("yanit"@),
        is_reply_word("atb"@),
        is_reply_word("atb."@),
        is_reply_word("atbilde"@),
        is_reply_word("ateb"@),
        is_reply_word("ats"@),
        is_reply_word("ats."@),
        is_reply_word("atsakymas"@),
        is_reply_word("bls"@),
        is_reply_word("balas"@),
        is_reply_word("השב"@),
        is_reply_word("תשובה"@),
        is_reply_word("رد"@),
        is_reply_word("پاسخ"@),
        is_reply_word("отв"@),
        is_reply_word("ответ"@),
        is_reply_word("відп"@),
        is_reply_word("відповідь"@),
        is_reply_word("отг"@),
        is_reply_word("отговор"@),
        is_reply_word("回复"@),
        is_reply_word("回覆"@),
        is_reply_word("答复"@),
        is_reply_word("答覆"@),
        is_reply_word("返信"@),
        is_reply_word("회신"@),
        is_reply_word("답장"@),
        is_reply_word("ตอบกลับ"@),
        is_reply_word("பதில்"@),
        is_reply_word("trả lời"@),
{
}

/// Every forward marker of the list, in lowercase, is recognised as one.
pub proof fn lemma_forward_markers_listed()
    ensures
        is_forward_word("fwd"@),
        is_forward_word("fw"@),
        is_forward_word("rv"@),
        is_forward_word("reenviado"@),
        is_forward_word("enc"@),
        is_forward_word("encaminhado"@),
        is_forward_word("tr"@),
        is_forward_word("transfert"@),
        is_forward_word("wg"@),
        is_forward_word("weitergeleitet"@),
        is_forward_word("doorst"@),
        is_forward_word("doorgestuurd"@),
        is_forward_word("vs"@),
        is_forward_word("videresendt"@),
        is_forward_word("vb"@),
        is_forward_word("vidarebefordrat"@),
        is_forward_word("vl"@),
        is_forward_word("välitetty"@),
        is_forward_word("ed"@),
        is_forward_word("edastatud"@),
        is_forward_word("fs"@),
        is_forward_word("framsenda"@),
        is_forward_word("i"@),
        is_forward_word("inoltro"@),
        is_forward_word("inoltrato"@),
        is_forward_word("pd"@),
        is_forward_word("podaj dalej"@),
        is_forward_word("przekazane"@),
        is_forward_word("prosl"@),
        is_forward_word("proslijeđeno"@),
        is_forward_word("πρθ"@),
        is_forward_word("προωθ"@),
        is_forward_word("προωθημένο"@),
        is_forward_word("i\u{307}lt"@),
        is_forward_word("ilt"@),
        is_forward_word("i\u{307}let"@),
        is_forward_word("ilet"@),
        is_forward_word("i\u{307}letilen"@),
        is_forward_word("iletilen"@),
        is_forward_word("yml"@),
        is_forward_word("ymlaen"@),
        is_forward_word("pārs"@),
        is_forward_word("pārs."@),
        is_forward_word("pārsūtīts"@),
        is_forward_word("persiųsta"@),
        is_forward_word("trs"@),
        is_forward_word("terusan"@),
        is_forward_word("teruskan"@),
        is_forward_word("továbbítás"@),
        is_forward_word("הועבר"@),
        is_forward_word("העברה"@),
        is_forward_word("إعادة توجيه"@),
        is_forward_word("перес"@),
        is_forward_word("переслано"@),
        is_forward_word("пересылка"@),
        is_forward_word("пре"@),
        is_forward_word("препратено"@),
        is_forward_word("转发"@),
        is_forward_word("转寄"@),
        is_forward_word("轉寄"@),
        is_forward_word("転送"@),
        is_forward_word("전달"@),
        is_forward_word("ส่งต่อ"@),
        is_forward_word("முன்னனுப்பு"@),
        is_forward_word("chuyển tiếp"@),
{
}

} // verus!
