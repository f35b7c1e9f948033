use mail_parser::parsers::fields::thread::{thread_name, trim_trailing_fwd};

#[test]
fn parse_thread_name() {
    let tests = [
        ("re: hello", "hello"),
        ("re:re: hello", "hello"),
        ("re:fwd: hello", "hello"),
        ("fwd[5]:re[5]: hello", "hello"),
        ("fwd[99]:  re[40]: hello", "hello"),
        (": hello", ": hello"),
        ("re:: hello", ": hello"),
        ("[10] hello", "hello"),
        ("fwd[a]: hello", "hello"),
        ("re:", ""),
        ("re::", ":"),
        ("", ""),
        (" ", ""),
        ("回复: 轉寄: 轉寄", "轉寄"),
        ("aw[50]: wg: aw[1]: hallo", "hallo"),
        ("res: rv: enc: továbbítás: ", ""),
        ("[fwd: hello world]", "hello world"),
        ("re: enc: re[5]: [fwd: hello world]", "hello world"),
        ("[fwd: re: fw: hello world]", "hello world"),
        ("[fwd: hello world]: another text", ": another text"),
        ("[fwd: re: fwd:] another text", "another text"),
        ("[hello world]", "[hello world]"),
        ("re: fwd[9]: [hello world]", "[hello world]"),
        ("[mailing-list] hello world", "hello world"),
        ("[mailing-list] re: hello world", "hello world"),
        ("[mailing-list] wg[8]:re:  hello world", "hello world"),
        ("hello [world]", "hello [world]"),
        (" [hello] [world] ", "[hello] [world]"),
        ("[mailing-list] hello [world]", "hello [world]"),
        ("[hello [world]", "[hello [world]"),
        ("[]hello [world]", "hello [world]"),
        ("[fwd: re: re:] fwd[6]:re:  fw:", ""),
        ("[fwd hello] world hello", "world hello"),
        ("[fwd: مرحبا بالعالم]", "مرحبا بالعالم"),
        ("[fwd: hello world] مرحبا بالعالم", "مرحبا بالعالم"),
        ("  hello world  ", "hello world"),
        (
            "[mailing-list] wg[8]:re:  hello world (fwd)(fwd)",
            "hello world",
        ),
        ("[fwd: re: fw: hello world (fwd)]", "hello world"),
        (
            "res: rv: enc: továbbítás: hello world (doorst)",
            "hello world",
        ),
        ("[fwd: re: re: (fwd)] fwd[6]:re:  fw: (fwd)", ""),
    ];

    for (input, expected) in tests {
        assert_eq!(thread_name(input), expected, "{input:?}");
    }
}

#[test]
fn parse_unknown_prefix() {
    let tests = [
        ("z: hello", "hello"),
        ("yn: merhaba", "merhaba"),
        ("yan: merhaba", "merhaba"),
        ("ilt: merhaba", "merhaba"),
        ("Ynt: Re: Yan: merhaba", "merhaba"),
        ("ans: hello", "hello"),
        ("ΑΠΝΤ: γεια", "γεια"),
        ("meeting: hello", "meeting: hello"),
        ("urgent: hello", "urgent: hello"),
        ("bug 123: hello", "bug 123: hello"),
        ("12:30 meeting", "12:30 meeting"),
        ("no re: foobar", "no re: foobar"),
        ("re: no re: foobar", "no re: foobar"),
        ("re-check: hello", "re-check: hello"),
        ("q3: results", "q3: results"),
        ("http://example.com/page", "http://example.com/page"),
        ("ftp://example.com", "ftp://example.com"),
        ("note: remember this", "remember this"),
        ("hi: there", "there"),
    ];

    for (input, expected) in tests {
        assert_eq!(thread_name(input), expected, "{input:?}");
    }
}

#[test]
fn parse_localized_prefix() {
    let tests = [
        ("Re: hello", "hello"),
        ("RES: olá", "olá"),
        ("Resposta: olá", "olá"),
        ("RV: hola", "hola"),
        ("Respuesta: hola", "hola"),
        ("ENC: olá", "olá"),
        ("Encaminhado: olá", "olá"),
        ("RÉF: bonjour", "bonjour"),
        ("Rép: bonjour", "bonjour"),
        ("TR: bonjour", "bonjour"),
        ("Transfert: bonjour", "bonjour"),
        ("AW: hallo", "hallo"),
        ("Antwort: hallo", "hallo"),
        ("WG: hallo", "hallo"),
        ("Weitergeleitet: hallo", "hallo"),
        ("Antw: hallo", "hallo"),
        ("Doorst: hallo", "hallo"),
        ("Doorgestuurd: hallo", "hallo"),
        ("SV: hej", "hej"),
        ("Svar: hej", "hej"),
        ("VS: hej", "hej"),
        ("Videresendt: hej", "hej"),
        ("VB: hej", "hej"),
        ("Vidarebefordrat: hej", "hej"),
        ("VS: moi", "moi"),
        ("Vastaus: moi", "moi"),
        ("VL: moi", "moi"),
        ("Välitetty: moi", "moi"),
        ("ED: tere", "tere"),
        ("Edastatud: tere", "tere"),
        ("FS: halló", "halló"),
        ("Framsenda: halló", "halló"),
        ("Vá: szia", "szia"),
        ("Válasz: szia", "szia"),
        ("Továbbítás: szia", "szia"),
        ("R: ciao", "ciao"),
        ("RIF: ciao", "ciao"),
        ("I: ciao", "ciao"),
        ("Inoltro: ciao", "ciao"),
        ("Odp: cześć", "cześć"),
        ("Odpowiedź: cześć", "cześć"),
        ("PD: cześć", "cześć"),
        ("Podaj dalej: cześć", "cześć"),
        ("Odg: bok", "bok"),
        ("Odgovor: bok", "bok"),
        ("ΑΠ: γεια", "γεια"),
        ("ΣΧΕΤ: γεια", "γεια"),
        ("Απάντηση: γεια", "γεια"),
        ("ΠΡΘ: γεια", "γεια"),
        ("Προωθημένο: γεια", "γεια"),
        ("YNT: merhaba", "merhaba"),
        ("Yanıt: merhaba", "merhaba"),
        ("İLT: merhaba", "merhaba"),
        ("İletilen: merhaba", "merhaba"),
        ("Atb: sveiki", "sveiki"),
        ("Atbilde: sveiki", "sveiki"),
        ("Pārs: sveiki", "sveiki"),
        ("Pārsūtīts: sveiki", "sveiki"),
        ("Ats: labas", "labas"),
        ("Atsakymas: labas", "labas"),
        ("Persiųsta: labas", "labas"),
        ("ATB: helo", "helo"),
        ("Ateb: helo", "helo"),
        ("YML: helo", "helo"),
        ("Ymlaen: helo", "helo"),
        ("BLS: halo", "halo"),
        ("Balas: halo", "halo"),
        ("TRS: halo", "halo"),
        ("Teruskan: halo", "halo"),
        ("השב: שלום", "שלום"),
        ("תשובה: שלום", "שלום"),
        ("הועבר: שלום", "שלום"),
        ("העברה: שלום", "שלום"),
        ("رد: مرحبا", "مرحبا"),
        ("إعادة توجيه: مرحبا", "مرحبا"),
        ("پاسخ: سلام", "سلام"),
        ("Отв: привет", "привет"),
        ("Ответ: привет", "привет"),
        ("Пересылка: привет", "привет"),
        ("Переслано: привет", "привет"),
        ("Відп: привіт", "привіт"),
        ("Відповідь: привіт", "привіт"),
        ("Отг: здравей", "здравей"),
        ("Препратено: здравей", "здравей"),
        ("回复: 你好", "你好"),
        ("答复: 你好", "你好"),
        ("转发: 你好", "你好"),
        ("回覆: 你好", "你好"),
        ("轉寄: 你好", "你好"),
        ("返信: こんにちは", "こんにちは"),
        ("転送: こんにちは", "こんにちは"),
        ("회신: 안녕하세요", "안녕하세요"),
        ("답장: 안녕하세요", "안녕하세요"),
        ("전달: 안녕하세요", "안녕하세요"),
        ("ตอบกลับ: สวัสดี", "สวัสดี"),
        ("ส่งต่อ: สวัสดี", "สวัสดี"),
        ("பதில்: வணக்கம்", "வணக்கம்"),
        ("முன்னனுப்பு: வணக்கம்", "வணக்கம்"),
        ("Trả lời: xin chào", "xin chào"),
        ("Chuyển tiếp: xin chào", "xin chào"),
    ];

    for (input, expected) in tests {
        assert_eq!(thread_name(input), expected, "{input:?}");
    }
}

#[test]
fn parse_mixed_locale_chain() {
    let tests = [
        ("Ynt: Re: Ynt: teklif", "teklif"),
        ("Re: Ynt: Re: teklif", "teklif"),
        ("AW: SV: Re: VS: hallo", "hallo"),
        (
            "Fwd: Re: Sv: Re: SV: vms rename Unix mode fixes",
            "vms rename Unix mode fixes",
        ),
        (
            "Re: RE: Re: Perl_peep recursion exceeds",
            "Perl_peep recursion exceeds",
        ),
        ("İlt: Ynt: rapor", "rapor"),
        ("回复: Re: 转发: 你好", "你好"),
        ("Odp: Re: Odp: cześć", "cześć"),
    ];

    for (input, expected) in tests {
        assert_eq!(thread_name(input), expected, "{input:?}");
    }
}

#[test]
fn parse_cyrus_fixtures() {
    let tests = [
        ("understanding merge history", "understanding merge history"),
        (
            "Re: Alias of constant passed to sub",
            "Alias of constant passed to sub",
        ),
        (
            "[PATCH] merging make_ext and make_ext_cross",
            "merging make_ext and make_ext_cross",
        ),
        (
            "Re: [PATCH] Parallel testing conflict",
            "Parallel testing conflict",
        ),
        (
            "Re: [PATCH] Fwd: deprecate UNIVERSAL->import",
            "deprecate UNIVERSAL->import",
        ),
        ("Re[2]: another reply", "another reply"),
        ("Re[peat]: another reply", "another reply"),
        ("non\u{a0}breaking space", "non\u{a0}breaking space"),
        ("回复: test no ascii", "test no ascii"),
        ("re:\u{a0}non breaking space", "non breaking space"),
        ("\nfoo\rbar \tbaz ", "foo\rbar \tbaz"),
        (
            "how about the weather [SEC=UNOFFICIAL]",
            "how about the weather [SEC=UNOFFICIAL]",
        ),
        ("unmatched left] foobar", "unmatched left] foobar"),
    ];

    for (input, expected) in tests {
        assert_eq!(thread_name(input), expected, "{input:?}");
    }
}

#[test]
fn parse_trail_fwd() {
    let tests = [
        ("hello (fwd)", "hello"),
        (" hello (fwd)(fwd)", "hello"),
        ("hello (wg) (fwd) (fwd)", "hello"),
        ("(fwd)(fwd)", ""),
        ("(fwd)hello(fwd)", "(fwd)hello"),
        ("  hello  ", "hello"),
        ("  hello world   ", "hello world"),
        ("", ""),
        ("    ", ""),
        ("hello ()(fwd)", "hello ()"),
        ("(hello)", "(hello)"),
        ("hello () (fwd) ()(fwd)", "hello () (fwd) ()"),
        (")(", ")("),
        (" 你好世界(fwd) ", "你好世界"),
        ("你好世界 (轉寄)", "你好世界"),
        ("merhaba (i\u{307}letilen)", "merhaba"),
        ("hello(fwd", "hello(fwd"),
        ("hello(fwd))", "hello(fwd))"),
    ];

    for (input, expected) in tests {
        assert_eq!(trim_trailing_fwd(input), expected, "{input:?}");
    }
}
