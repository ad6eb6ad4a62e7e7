//! The assistant endpoint's own logic: the prompt sent for each kind of
//! request, and how the model's reply is cut into an explanation, a list of
//! suggestions and a transformed grammar.

use vstd::prelude::*;
use crate::symbols::strs_view;
use crate::text::{is_ws, trim, trim_start, trim_end, split_char, range_texts, ranges_ok, chars_of, substring, concat, starts_at, split_ranges, trim_range};

verus! {

/// A request to the assistant: the grammar, the kind of help wanted
/// (`explain_error`, `fix_ambiguity`, `suggest_ll1_transform` or another),
/// and for an error, the message, the input and the parser.
pub struct AiAssistRequest {
    pub grammar: String,
    pub request_type: String,
    pub error_message: Option<String>,
    pub input_string: Option<String>,
    pub parser_type: Option<String>,
}

/// The assistant's answer.
pub struct AiAssistResponse {
    pub status: String,
    pub explanation: Option<String>,
    pub suggestions: Option<Vec<String>>,
    pub transformed_grammar: Option<String>,
    pub message: Option<String>,
}

/// The text of an optional string, or `default`.
pub open spec fn text_or(o: Option<String>, default: Seq<char>) -> Seq<char> {
    match o {
        Some(s) => s@,
        None => default,
    }
}

/// The prompt for a request of kind `kind` on grammar `g`, with the error
/// message, input and parser of an `explain_error` request.
pub open spec fn prompt_text(kind: Seq<char>, g: Seq<char>, error: Seq<char>, input: Seq<char>, parser: Seq<char>) -> Seq<char> {
    if kind == "explain_error"@ {
        "Eres un experto en compiladores y teoría de lenguajes formales. Explica en español, de forma clara y educativa (máximo 3 párrafos), por qué falló el siguiente análisis sintáctico:\n\nGramática:\n"@
            + g + "\n\nCadena de entrada: \""@ + input + "\"\nAlgoritmo de parsing: "@ + parser
            + "\nMensaje de error del parser: \""@ + error
            + "\"\n\nExplica: (1) qué significa el error, (2) por qué ocurre con esta gramática/entrada, (3) qué token o producción causó el problema."@
    } else if kind == "fix_ambiguity"@ {
        "Eres un experto en compiladores. Analiza esta gramática libre de contexto y devuelve tu respuesta en español con este formato EXACTO:\n\nDIAGNÓSTICO: [explica en 1-2 oraciones qué problema tiene la gramática]\n\nPROBLEMAS:\n- [problema 1]\n- [problema 2]\n(lista todos los problemas: ambigüedad, recursión izquierda, etc.)\n\nGRAMÁTICA CORREGIDA:\n[escribe la gramática corregida en formato: NT → producción]\n\nEXPLICACIÓN: [explica qué transformaciones hiciste y por qué]\n\nGramática a analizar:\n"@
            + g
    } else if kind == "suggest_ll1_transform"@ {
        "Eres un experto en compiladores. Transforma esta gramática para que sea LL(1). Devuelve tu respuesta en español con este formato EXACTO:\n\nANÁLISIS: [explica por qué la gramática actual NO es LL(1), si es que no lo es]\n\nPASOS:\n1. [paso 1: ej. Eliminar recursión izquierda en X → ...]\n2. [paso 2: ej. Factorizar Y → ...]\n(lista cada transformación necesaria)\n\nGRAMÁTICA LL(1):\n[escribe la gramática transformada, una producción por línea en formato: NT → producción]\n\nVERIFICACIÓN: [explica brevemente por qué la gramática resultante SÍ es LL(1)]\n\nGramática original:\n"@
            + g
    } else {
        "Analiza esta gramática libre de contexto y da recomendaciones en español:\n"@ + g
    }
}

/// The prompt sent to the model for a request.
pub open spec fn prompt_of(req: AiAssistRequest) -> Seq<char> {
    prompt_text(
        req.request_type@,
        req.grammar@,
        text_or(req.error_message, "error desconocido"@),
        text_or(req.input_string, ""@),
        text_or(req.parser_type, "desconocido"@),
    )
}

/// The text of an optional string, or `default`.
fn string_or(o: &Option<String>, default: &str) -> (r: String)
    ensures
        r@ == text_or(*o, default@),
{
    match o {
        Some(s) => s.clone(),
        None => String::from_str(default),
    }
}

/// The prompt for the request: an explanation of a parse error, a fix of
/// ambiguity, a transformation to LL(1), or general advice on the grammar.
pub fn build_prompt(req: &AiAssistRequest) -> (r: String)
    ensures
        r@ == prompt_of(*req),
{
    let kind = &req.request_type;
    if *kind == String::from_str("explain_error") {
        let error = string_or(&req.error_message, "error desconocido");
        let input = string_or(&req.input_string, "");
        let parser = string_or(&req.parser_type, "desconocido");
        let mut r = String::from_str(
            "Eres un experto en compiladores y teoría de lenguajes formales. Explica en español, de forma clara y educativa (máximo 3 párrafos), por qué falló el siguiente análisis sintáctico:\n\nGramática:\n",
        );
        r.append(req.grammar.as_str());
        r.append("\n\nCadena de entrada: \"");
        r.append(input.as_str());
        r.append("\"\nAlgoritmo de parsing: ");
        r.append(parser.as_str());
        r.append("\nMensaje de error del parser: \"");
        r.append(error.as_str());
        r.append(
            "\"\n\nExplica: (1) qué significa el error, (2) por qué ocurre con esta gramática/entrada, (3) qué token o producción causó el problema.",
        );
        r
    } else if *kind == String::from_str("fix_ambiguity") {
        concat(
            "Eres un experto en compiladores. Analiza esta gramática libre de contexto y devuelve tu respuesta en español con este formato EXACTO:\n\nDIAGNÓSTICO: [explica en 1-2 oraciones qué problema tiene la gramática]\n\nPROBLEMAS:\n- [problema 1]\n- [problema 2]\n(lista todos los problemas: ambigüedad, recursión izquierda, etc.)\n\nGRAMÁTICA CORREGIDA:\n[escribe la gramática corregida en formato: NT → producción]\n\nEXPLICACIÓN: [explica qué transformaciones hiciste y por qué]\n\nGramática a analizar:\n",
            req.grammar.as_str(),
        )
    } else if *kind == String::from_str("suggest_ll1_transform") {
        concat(
            "Eres un experto en compiladores. Transforma esta gramática para que sea LL(1). Devuelve tu respuesta en español con este formato EXACTO:\n\nANÁLISIS: [explica por qué la gramática actual NO es LL(1), si es que no lo es]\n\nPASOS:\n1. [paso 1: ej. Eliminar recursión izquierda en X → ...]\n2. [paso 2: ej. Factorizar Y → ...]\n(lista cada transformación necesaria)\n\nGRAMÁTICA LL(1):\n[escribe la gramática transformada, una producción por línea en formato: NT → producción]\n\nVERIFICACIÓN: [explica brevemente por qué la gramática resultante SÍ es LL(1)]\n\nGramática original:\n",
            req.grammar.as_str(),
        )
    } else {
        concat("Analiza esta gramática libre de contexto y da recomendaciones en español:\n", req.grammar.as_str())
    }
}

/// The first position, from `k` on, at which `pat` occurs in `s`.
pub open spec fn find_from(s: Seq<char>, pat: Seq<char>, k: int) -> Option<int>
    decreases s.len() - k,
{
    if k < 0 || k + pat.len() > s.len() {
        None
    } else if s.subrange(k, k + pat.len()) == pat {
        Some(k)
    } else if k >= s.len() {
        None
    } else {
        find_from(s, pat, k + 1)
    }
}

/// The headers of the sections of a reply.
pub open spec fn section_headers() -> Seq<Seq<char>> {
    seq![
        "DIAGNÓSTICO:"@,
        "PROBLEMAS:"@,
        "GRAMÁTICA CORREGIDA:"@,
        "EXPLICACIÓN:"@,
        "ANÁLISIS:"@,
        "PASOS:"@,
        "GRAMÁTICA LL(1):"@,
        "VERIFICACIÓN:"@,
    ]
}

/// Where the section that starts `after` ends: at the first occurrence, not
/// at its very start, of any header of `hs`, else at the end.
pub open spec fn section_end(after: Seq<char>, hs: Seq<Seq<char>>) -> int
    decreases hs.len(),
{
    if hs.len() == 0 {
        after.len() as int
    } else {
        let end = section_end(after, hs.drop_last());
        match find_from(after, hs.last(), 0) {
            Some(pos) => if 0 < pos < end { pos } else { end },
            None => end,
        }
    }
}

/// The text under `header` up to the next header, without surrounding
/// whitespace; empty when `header` does not occur.
pub open spec fn section(text: Seq<char>, header: Seq<char>) -> Seq<char> {
    match find_from(text, header, 0) {
        Some(start) => {
            let after = text.skip(start + header.len());
            trim(after.take(section_end(after, section_headers())))
        },
        None => Seq::empty(),
    }
}

/// `s` without its leading dashes.
pub open spec fn strip_dashes(s: Seq<char>) -> Seq<char>
    decreases s.len(),
{
    if s.len() > 0 && s[0] == '-' {
        strip_dashes(s.drop_first())
    } else {
        s
    }
}

/// The item of a line of a list: the line without its leading dashes and
/// surrounding whitespace.
pub open spec fn dash_item(l: Seq<char>) -> Seq<char> {
    trim(strip_dashes(l))
}

/// Whether a line is a non-empty item of a list: it starts with `-` after
/// its leading whitespace.
pub open spec fn is_dash_item(l: Seq<char>) -> bool {
    let ts = trim_start(l);
    ts.len() > 0 && ts[0] == '-' && dash_item(l).len() > 0
}

/// The items of the list lines among `lines`, in order.
pub open spec fn dash_items(lines: Seq<Seq<char>>) -> Seq<Seq<char>>
    decreases lines.len(),
{
    if lines.len() == 0 {
        Seq::empty()
    } else {
        let r = dash_items(lines.drop_last());
        if is_dash_item(lines.last()) {
            r.push(dash_item(lines.last()))
        } else {
            r
        }
    }
}

/// The suggestions of a reply: the items of the list under `PROBLEMAS:`.
/// (Lines are taken between newlines; a carriage return before a newline,
/// which `str::lines` drops, is whitespace at an item's end and so is
/// trimmed all the same.)
pub open spec fn suggestions_of(text: Seq<char>) -> Seq<Seq<char>> {
    dash_items(split_char(section(text, "PROBLEMAS:"@), '\n'))
}

/// Some text, or nothing when it is empty.
pub open spec fn unless_empty(s: Seq<char>) -> Option<Seq<char>> {
    if s.len() == 0 {
        None
    } else {
        Some(s)
    }
}

/// Whether `o` holds the text of `t`.
pub open spec fn holds_text(o: Option<String>, t: Option<Seq<char>>) -> bool {
    match (o, t) {
        (Some(s), Some(x)) => s@ == x,
        (None, None) => true,
        _ => false,
    }
}

/// The first position, from 0, at which `pat` occurs in `s`.
fn find_chars(s: &Vec<char>, pat: &Vec<char>) -> (r: Option<usize>)
    ensures
        match r {
            Some(k) => find_from(s@, pat@, 0) == Some(k as int),
            None => find_from(s@, pat@, 0) is None,
        },
{
    let mut k: usize = 0;
    while k <= s.len()
        invariant
            k <= s@.len() + 1,
            find_from(s@, pat@, 0) == find_from(s@, pat@, k as int),
        decreases s.len() + 1 - k,
    {
        if starts_at(s, k, pat) {
            assert(s@.skip(k as int).take(pat@.len() as int) =~= s@.subrange(k as int, k + pat@.len()));
            return Some(k);
        }
        proof {
            if k + pat@.len() <= s@.len() {
                assert(s@.skip(k as int).take(pat@.len() as int) =~= s@.subrange(k as int, k + pat@.len()));
            }
        }
        if k == s.len() {
            return None;
        }
        k += 1;
    }
    None
}

pub proof fn lemma_find_from(s: Seq<char>, pat: Seq<char>, k: int)
    ensures
        find_from(s, pat, k) matches Some(j) ==> k <= j && j + pat.len() <= s.len(),
    decreases s.len() - k,
{
    if !(k < 0 || k + pat.len() > s.len()) && s.subrange(k, k + pat.len()) != pat && k < s.len() {
        lemma_find_from(s, pat, k + 1);
    }
}

pub proof fn lemma_section_end(after: Seq<char>, hs: Seq<Seq<char>>)
    ensures
        0 <= section_end(after, hs) <= after.len(),
    decreases hs.len(),
{
    if hs.len() > 0 {
        lemma_section_end(after, hs.drop_last());
    }
}

/// The text under `header` in `text`, up to the next header, trimmed.
pub fn extract_section(text: &str, header: &str) -> (r: String)
    ensures
        r@ == section(text@, header@),
{
    let chars = chars_of(text);
    let hchars = chars_of(header);
    match find_chars(&chars, &hchars) {
        Some(start) => {
            proof {
                lemma_find_from(chars@, hchars@, 0);
                assert(find_from(chars@, hchars@, 0) == Some(start as int));
                assert(start + hchars@.len() <= chars@.len());
            }
            let hl: usize = hchars.len();
            assert(hl == hchars@.len());
            assert(start + hl <= chars.len());
            let from: usize = start + hl;
            let after_text = substring(text, &chars, from, chars.len());
            let after = chars_of(after_text.as_str());
            assert(after@ =~= text@.skip(from as int));
            let headers: Vec<&str> = vec![
                "DIAGNÓSTICO:",
                "PROBLEMAS:",
                "GRAMÁTICA CORREGIDA:",
                "EXPLICACIÓN:",
                "ANÁLISIS:",
                "PASOS:",
                "GRAMÁTICA LL(1):",
                "VERIFICACIÓN:",
            ];
            let ghost hs = section_headers();
            assert(headers@.map_values(|h: &str| h@) =~= hs);
            let mut end = after.len();
            let mut i: usize = 0;
            assert(hs.take(0) =~= Seq::<Seq<char>>::empty());
            while i < headers.len()
                invariant
                    hs == section_headers(),
                    headers@.len() == hs.len(),
                    forall|j: int| 0 <= j < hs.len() ==> (#[trigger] headers@[j])@ == hs[j],
                    i <= hs.len(),
                    end == section_end(after@, hs.take(i as int)),
                decreases headers.len() - i,
            {
                assert(hs.take(i + 1).drop_last() =~= hs.take(i as int));
                assert(hs.take(i + 1).last() == headers@[i as int]@);
                proof {
                    lemma_section_end(after@, hs.take(i as int));
                }
                let h = chars_of(headers[i]);
                match find_chars(&after, &h) {
                    Some(pos) => {
                        if pos > 0 && pos < end {
                            end = pos;
                        }
                    },
                    None => {},
                }
                i += 1;
            }
            assert(hs.take(8) =~= hs);
            proof {
                lemma_section_end(after@, hs);
            }
            let (a, b) = trim_range(&after, 0, end);
            assert(after@.subrange(0, end as int) =~= after@.take(end as int));
            substring(after_text.as_str(), &after, a, b)
        },
        None => String::new(),
    }
}

/// `s[a..b]` without its leading dashes: where it starts then.
fn skip_dashes(s: &Vec<char>, a: usize, b: usize) -> (r: usize)
    requires
        a <= b <= s@.len(),
    ensures
        a <= r <= b,
        s@.subrange(r as int, b as int) == strip_dashes(s@.subrange(a as int, b as int)),
{
    let mut i = a;
    while i < b && s[i] == '-'
        invariant
            a <= i <= b <= s@.len(),
            strip_dashes(s@.subrange(a as int, b as int)) == strip_dashes(s@.subrange(i as int, b as int)),
        decreases b - i,
    {
        assert(s@.subrange(i as int, b as int).drop_first() =~= s@.subrange(i + 1, b as int));
        i += 1;
    }
    i
}

pub proof fn lemma_trim_start_first(s: Seq<char>)
    ensures
        trim_start(s).len() > 0 ==> !is_ws(trim_start(s)[0]),
    decreases s.len(),
{
    if s.len() > 0 && is_ws(s[0]) {
        lemma_trim_start_first(s.drop_first());
    }
}

pub proof fn lemma_trim_end_first(s: Seq<char>)
    requires
        s.len() > 0,
        !is_ws(s[0]),
    ensures
        trim_end(s).len() > 0,
        trim_end(s)[0] == s[0],
    decreases s.len(),
{
    if is_ws(s.last()) {
        lemma_trim_end_first(s.drop_last());
    }
}

/// The items of the list under `PROBLEMAS:` in a reply.
fn suggestion_list(text: &str) -> (r: Vec<String>)
    ensures
        strs_view(r@) == suggestions_of(text@),
{
    let problems = extract_section(text, "PROBLEMAS:");
    let chars = chars_of(problems.as_str());
    let n = chars.len();
    let ranges = split_ranges(&chars, 0, n, '\n');
    assert(chars@.subrange(0, n as int) =~= problems@);
    let ghost lines = range_texts(chars@, ranges@);
    let mut out: Vec<String> = Vec::new();
    let mut k: usize = 0;
    assert(lines.take(0) =~= Seq::<Seq<char>>::empty());
    while k < ranges.len()
        invariant
            chars@ == problems@,
            lines == range_texts(chars@, ranges@),
            ranges_ok(chars@, ranges@),
            k <= ranges@.len(),
            strs_view(out@) == dash_items(lines.take(k as int)),
        decreases ranges.len() - k,
    {
        let (a, b) = ranges[k];
        let ghost l = chars@.subrange(a as int, b as int);
        assert(lines[k as int] == l);
        assert(lines.take(k + 1).drop_last() =~= lines.take(k as int));
        assert(lines.take(k + 1).last() == l);
        let (ta, tb) = trim_range(&chars, a, b);
        proof {
            lemma_trim_start_first(l);
            if trim_start(l).len() > 0 {
                lemma_trim_end_first(trim_start(l));
            }
        }
        let starts_with_dash = ta < tb && chars[ta] == '-';
        let d = skip_dashes(&chars, a, b);
        let (ia, ib) = trim_range(&chars, d, b);
        let ghost before = strs_view(out@);
        if starts_with_dash && ia < ib {
            let item = substring(problems.as_str(), &chars, ia, ib);
            out.push(item);
            assert(strs_view(out@) =~= before.push(item@));
        }
        k += 1;
    }
    assert(lines.take(ranges@.len() as int) =~= lines);
    out
}

/// Whether `r` is the reply `text` cut up for a request of kind `kind`.
pub open spec fn reply_parsed(kind: Seq<char>, text: Seq<char>, r: AiAssistResponse) -> bool {
    &&& r.status@ == "success"@
    &&& r.explanation matches Some(e) && e@ == text
    &&& r.message is None
    &&& kind == "fix_ambiguity"@ ==> {
        &&& holds_text(r.transformed_grammar, unless_empty(section(text, "GRAMÁTICA CORREGIDA:"@)))
        &&& match r.suggestions {
            Some(v) => strs_view(v@) == suggestions_of(text) && suggestions_of(text).len() > 0,
            None => suggestions_of(text).len() == 0,
        }
    }
    &&& kind == "suggest_ll1_transform"@ ==> {
        &&& holds_text(r.transformed_grammar, unless_empty(section(text, "GRAMÁTICA LL(1):"@)))
        &&& r.suggestions is None
    }
    &&& kind != "fix_ambiguity"@ && kind != "suggest_ll1_transform"@ ==> {
        &&& r.transformed_grammar is None
        &&& r.suggestions is None
    }
}

/// The reply cut up by kind of request: the whole text as explanation, and
/// for `fix_ambiguity` the items under `PROBLEMAS:` and the text under
/// `GRAMÁTICA CORREGIDA:`, for `suggest_ll1_transform` the text under
/// `GRAMÁTICA LL(1):`, each left out when empty.
pub fn parse_ai_response(request_type: &str, text: String) -> (r: AiAssistResponse)
    ensures
        reply_parsed(request_type@, text@, r),
{
    proof {
        reveal_strlit("fix_ambiguity");
        reveal_strlit("suggest_ll1_transform");
        assert("fix_ambiguity"@ != "suggest_ll1_transform"@) by {
            assert("fix_ambiguity"@[0] != "suggest_ll1_transform"@[0]);
        }
    }
    let kind = String::from_str(request_type);
    if kind == String::from_str("fix_ambiguity") {
        let transformed = extract_section(text.as_str(), "GRAMÁTICA CORREGIDA:");
        let suggestions = suggestion_list(text.as_str());
        let has_suggestions = suggestions.len() > 0;
        let has_grammar = transformed.as_str().unicode_len() > 0;
        AiAssistResponse {
            status: String::from_str("success"),
            explanation: Some(text),
            suggestions: if has_suggestions { Some(suggestions) } else { None },
            transformed_grammar: if has_grammar { Some(transformed) } else { None },
            message: None,
        }
    } else if kind == String::from_str("suggest_ll1_transform") {
        let transformed = extract_section(text.as_str(), "GRAMÁTICA LL(1):");
        let has_grammar = transformed.as_str().unicode_len() > 0;
        AiAssistResponse {
            status: String::from_str("success"),
            explanation: Some(text),
            suggestions: None,
            transformed_grammar: if has_grammar { Some(transformed) } else { None },
            message: None,
        }
    } else {
        AiAssistResponse {
            status: String::from_str("success"),
            explanation: Some(text),
            suggestions: None,
            transformed_grammar: None,
            message: None,
        }
    }
}

/// The answer to a request once the model's reply has been read: the
/// reply cut up by kind of request when it holds a text (`content`), else
/// an error with the message the service gave, or a default one.
pub fn ai_reply(request_type: &str, content: Option<String>, error_message: Option<String>) -> (r: (u16, AiAssistResponse))
    ensures
        r.0 == 200,
        match content {
            Some(t) => reply_parsed(request_type@, t@, r.1),
            None => {
                &&& r.1.status@ == "error"@
                &&& r.1.explanation is None
                &&& r.1.suggestions is None
                &&& r.1.transformed_grammar is None
                &&& r.1.message matches Some(m) && m@ == text_or(error_message, "Empty response from Groq"@)
            },
        },
{
    match content {
        Some(t) => (200, parse_ai_response(request_type, t)),
        None => (200, AiAssistResponse {
            status: String::from_str("error"),
            explanation: None,
            suggestions: None,
            transformed_grammar: None,
            message: Some(string_or(&error_message, "Empty response from Groq")),
        }),
    }
}

/// A failure of the server (status 500) with `message`: no API key, the
/// service out of reach, or a reply that could not be read.
pub fn ai_failure(message: String) -> (r: (u16, AiAssistResponse))
    ensures
        r.0 == 500,
        r.1.status@ == "error"@,
        r.1.explanation is None,
        r.1.suggestions is None,
        r.1.transformed_grammar is None,
        r.1.message == Some(message),
{
    (500, AiAssistResponse {
        status: String::from_str("error"),
        explanation: None,
        suggestions: None,
        transformed_grammar: None,
        message: Some(message),
    })
}

} // verus!
