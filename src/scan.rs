//! The lexical scanner: source text to a positioned token stream.
//!
//! The source is cut into lines, blank and comment lines are dropped, the
//! leading spaces of each remaining line open or close indentation blocks
//! (`INDENT` / `DEDENT`), and the rest of the line is cut into tokens. Every
//! function here is stated against the spec function of the same stage:
//! `lines_of`, `line_tokens` and finally `scan_source`.
use vstd::prelude::*;
use vstd::string::*;
use vstd::utf8::encode_utf8;
use crate::json::{push_json_string, quoted};
use crate::text::{decimal, push_decimal, push_char, alphabetic, alphanumeric, whitespace, digit, is_alphabetic, is_alphanumeric, is_whitespace, is_digit, chars_of, string_of, same_text};

verus! {

/// The tag of a token: layout markers, literal classes, punctuation and the
/// reserved words of the language.
#[allow(non_camel_case_types)]
#[derive(Clone, Copy, Debug, PartialEq, Eq, Structural)]
pub enum TokenType {
    INDENT,
    DEDENT,
    NEWLINE,
    EOF,
    STRING,
    NUMBER,
    IDENT,
    IDENT_ESCAPED,
    COLON,
    DOT,
    PLUS,
    MINUS,
    STAR,
    POWER,
    SLASH,
    PERCENT,
    EQUALS,
    LPAREN,
    RPAREN,
    LBRACKET,
    RBRACKET,
    COMMA,
    FLOW,
    PAGE,
    APP,
    SPEC,
    AI,
    ASK,
    WITH,
    INPUT,
    INPUT_SCHEMA,
    OUTPUT_SCHEMA,
    AS,
    PROVIDER,
    TOOLS,
    EXPOSE,
    TOOL,
    CALL,
    KIND,
    ENTRY,
    PURITY,
    TIMEOUT_SECONDS,
    MEMORY,
    SHORT_TERM,
    SEMANTIC,
    PROFILE,
    AGENT,
    AGENTS,
    PARALLEL,
    RUN,
    MODEL,
    SYSTEM_PROMPT,
    TITLE,
    TEXT,
    THEME,
    THEME_TOKENS,
    THEME_PREFERENCE,
    UI,
    FORM,
    TABLE,
    BUTTON,
    SECTION,
    CARD,
    ROW,
    COLUMN,
    DIVIDER,
    IMAGE,
    CALLS,
    RECORD,
    SAVE,
    CREATE,
    FIND,
    WHERE,
    LET,
    LATEST,
    SET,
    REQUIRE,
    RETURN,
    REPEAT,
    UP,
    TO,
    TIMES,
    FOR,
    EACH,
    IN,
    MATCH,
    WHEN,
    OTHERWISE,
    TRY,
    CATCH,
    IF,
    ELSE,
    IS,
    GREATER,
    LESS,
    EQUAL,
    THAN,
    AND,
    OR,
    NOT,
    STATE,
    CONSTANT,
    BOOLEAN,
    NULL,
    TYPE_STRING,
    TYPE_INT,
    TYPE_NUMBER,
    TYPE_BOOLEAN,
    TYPE_JSON,
    MUST,
    BE,
    PRESENT,
    UNIQUE,
    PATTERN,
    PARAM,
    HAVE,
    LENGTH,
    AT,
    LEAST,
    MOST,
    CAPABILITIES,
    JOB,
    ENQUEUE,
}

/// The spelling of a tag in the token stream's JSON form.
pub open spec fn tag_name(t: TokenType) -> Seq<char> {
    match t {
        TokenType::INDENT => "INDENT"@,
        TokenType::DEDENT => "DEDENT"@,
        TokenType::NEWLINE => "NEWLINE"@,
        TokenType::EOF => "EOF"@,
        TokenType::STRING => "STRING"@,
        TokenType::NUMBER => "NUMBER"@,
        TokenType::IDENT => "IDENT"@,
        TokenType::IDENT_ESCAPED => "IDENT_ESCAPED"@,
        TokenType::COLON => "COLON"@,
        TokenType::DOT => "DOT"@,
        TokenType::PLUS => "PLUS"@,
        TokenType::MINUS => "MINUS"@,
        TokenType::STAR => "STAR"@,
        TokenType::POWER => "POWER"@,
        TokenType::SLASH => "SLASH"@,
        TokenType::PERCENT => "PERCENT"@,
        TokenType::EQUALS => "EQUALS"@,
        TokenType::LPAREN => "LPAREN"@,
        TokenType::RPAREN => "RPAREN"@,
        TokenType::LBRACKET => "LBRACKET"@,
        TokenType::RBRACKET => "RBRACKET"@,
        TokenType::COMMA => "COMMA"@,
        TokenType::FLOW => "FLOW"@,
        TokenType::PAGE => "PAGE"@,
        TokenType::APP => "APP"@,
        TokenType::SPEC => "SPEC"@,
        TokenType::AI => "AI"@,
        TokenType::ASK => "ASK"@,
        TokenType::WITH => "WITH"@,
        TokenType::INPUT => "INPUT"@,
        TokenType::INPUT_SCHEMA => "INPUT_SCHEMA"@,
        TokenType::OUTPUT_SCHEMA => "OUTPUT_SCHEMA"@,
        TokenType::AS => "AS"@,
        TokenType::PROVIDER => "PROVIDER"@,
        TokenType::TOOLS => "TOOLS"@,
        TokenType::EXPOSE => "EXPOSE"@,
        TokenType::TOOL => "TOOL"@,
        TokenType::CALL => "CALL"@,
        TokenType::KIND => "KIND"@,
        TokenType::ENTRY => "ENTRY"@,
        TokenType::PURITY => "PURITY"@,
        TokenType::TIMEOUT_SECONDS => "TIMEOUT_SECONDS"@,
        TokenType::MEMORY => "MEMORY"@,
        TokenType::SHORT_TERM => "SHORT_TERM"@,
        TokenType::SEMANTIC => "SEMANTIC"@,
        TokenType::PROFILE => "PROFILE"@,
        TokenType::AGENT => "AGENT"@,
        TokenType::AGENTS => "AGENTS"@,
        TokenType::PARALLEL => "PARALLEL"@,
        TokenType::RUN => "RUN"@,
        TokenType::MODEL => "MODEL"@,
        TokenType::SYSTEM_PROMPT => "SYSTEM_PROMPT"@,
        TokenType::TITLE => "TITLE"@,
        TokenType::TEXT => "TEXT"@,
        TokenType::THEME => "THEME"@,
        TokenType::THEME_TOKENS => "THEME_TOKENS"@,
        TokenType::THEME_PREFERENCE => "THEME_PREFERENCE"@,
        TokenType::UI => "UI"@,
        TokenType::FORM => "FORM"@,
        TokenType::TABLE => "TABLE"@,
        TokenType::BUTTON => "BUTTON"@,
        TokenType::SECTION => "SECTION"@,
        TokenType::CARD => "CARD"@,
        TokenType::ROW => "ROW"@,
        TokenType::COLUMN => "COLUMN"@,
        TokenType::DIVIDER => "DIVIDER"@,
        TokenType::IMAGE => "IMAGE"@,
        TokenType::CALLS => "CALLS"@,
        TokenType::RECORD => "RECORD"@,
        TokenType::SAVE => "SAVE"@,
        TokenType::CREATE => "CREATE"@,
        TokenType::FIND => "FIND"@,
        TokenType::WHERE => "WHERE"@,
        TokenType::LET => "LET"@,
        TokenType::LATEST => "LATEST"@,
        TokenType::SET => "SET"@,
        TokenType::REQUIRE => "REQUIRE"@,
        TokenType::RETURN => "RETURN"@,
        TokenType::REPEAT => "REPEAT"@,
        TokenType::UP => "UP"@,
        TokenType::TO => "TO"@,
        TokenType::TIMES => "TIMES"@,
        TokenType::FOR => "FOR"@,
        TokenType::EACH => "EACH"@,
        TokenType::IN => "IN"@,
        TokenType::MATCH => "MATCH"@,
        TokenType::WHEN => "WHEN"@,
        TokenType::OTHERWISE => "OTHERWISE"@,
        TokenType::TRY => "TRY"@,
        TokenType::CATCH => "CATCH"@,
        TokenType::IF => "IF"@,
        TokenType::ELSE => "ELSE"@,
        TokenType::IS => "IS"@,
        TokenType::GREATER => "GREATER"@,
        TokenType::LESS => "LESS"@,
        TokenType::EQUAL => "EQUAL"@,
        TokenType::THAN => "THAN"@,
        TokenType::AND => "AND"@,
        TokenType::OR => "OR"@,
        TokenType::NOT => "NOT"@,
        TokenType::STATE => "STATE"@,
        TokenType::CONSTANT => "CONSTANT"@,
        TokenType::BOOLEAN => "BOOLEAN"@,
        TokenType::NULL => "NULL"@,
        TokenType::TYPE_STRING => "TYPE_STRING"@,
        TokenType::TYPE_INT => "TYPE_INT"@,
        TokenType::TYPE_NUMBER => "TYPE_NUMBER"@,
        TokenType::TYPE_BOOLEAN => "TYPE_BOOLEAN"@,
        TokenType::TYPE_JSON => "TYPE_JSON"@,
        TokenType::MUST => "MUST"@,
        TokenType::BE => "BE"@,
        TokenType::PRESENT => "PRESENT"@,
        TokenType::UNIQUE => "UNIQUE"@,
        TokenType::PATTERN => "PATTERN"@,
        TokenType::PARAM => "PARAM"@,
        TokenType::HAVE => "HAVE"@,
        TokenType::LENGTH => "LENGTH"@,
        TokenType::AT => "AT"@,
        TokenType::LEAST => "LEAST"@,
        TokenType::MOST => "MOST"@,
        TokenType::CAPABILITIES => "CAPABILITIES"@,
        TokenType::JOB => "JOB"@,
        TokenType::ENQUEUE => "ENQUEUE"@,
    }
}

impl TokenType {
    pub fn name(&self) -> (r: &'static str)
        ensures
            r@ == tag_name(*self),
    {
        match self {
            TokenType::INDENT => "INDENT",
            TokenType::DEDENT => "DEDENT",
            TokenType::NEWLINE => "NEWLINE",
            TokenType::EOF => "EOF",
            TokenType::STRING => "STRING",
            TokenType::NUMBER => "NUMBER",
            TokenType::IDENT => "IDENT",
            TokenType::IDENT_ESCAPED => "IDENT_ESCAPED",
            TokenType::COLON => "COLON",
            TokenType::DOT => "DOT",
            TokenType::PLUS => "PLUS",
            TokenType::MINUS => "MINUS",
            TokenType::STAR => "STAR",
            TokenType::POWER => "POWER",
            TokenType::SLASH => "SLASH",
            TokenType::PERCENT => "PERCENT",
            TokenType::EQUALS => "EQUALS",
            TokenType::LPAREN => "LPAREN",
            TokenType::RPAREN => "RPAREN",
            TokenType::LBRACKET => "LBRACKET",
            TokenType::RBRACKET => "RBRACKET",
            TokenType::COMMA => "COMMA",
            TokenType::FLOW => "FLOW",
            TokenType::PAGE => "PAGE",
            TokenType::APP => "APP",
            TokenType::SPEC => "SPEC",
            TokenType::AI => "AI",
            TokenType::ASK => "ASK",
            TokenType::WITH => "WITH",
            TokenType::INPUT => "INPUT",
            TokenType::INPUT_SCHEMA => "INPUT_SCHEMA",
            TokenType::OUTPUT_SCHEMA => "OUTPUT_SCHEMA",
            TokenType::AS => "AS",
            TokenType::PROVIDER => "PROVIDER",
            TokenType::TOOLS => "TOOLS",
            TokenType::EXPOSE => "EXPOSE",
            TokenType::TOOL => "TOOL",
            TokenType::CALL => "CALL",
            TokenType::KIND => "KIND",
            TokenType::ENTRY => "ENTRY",
            TokenType::PURITY => "PURITY",
            TokenType::TIMEOUT_SECONDS => "TIMEOUT_SECONDS",
            TokenType::MEMORY => "MEMORY",
            TokenType::SHORT_TERM => "SHORT_TERM",
            TokenType::SEMANTIC => "SEMANTIC",
            TokenType::PROFILE => "PROFILE",
            TokenType::AGENT => "AGENT",
            TokenType::AGENTS => "AGENTS",
            TokenType::PARALLEL => "PARALLEL",
            TokenType::RUN => "RUN",
            TokenType::MODEL => "MODEL",
            TokenType::SYSTEM_PROMPT => "SYSTEM_PROMPT",
            TokenType::TITLE => "TITLE",
            TokenType::TEXT => "TEXT",
            TokenType::THEME => "THEME",
            TokenType::THEME_TOKENS => "THEME_TOKENS",
            TokenType::THEME_PREFERENCE => "THEME_PREFERENCE",
            TokenType::UI => "UI",
            TokenType::FORM => "FORM",
            TokenType::TABLE => "TABLE",
            TokenType::BUTTON => "BUTTON",
            TokenType::SECTION => "SECTION",
            TokenType::CARD => "CARD",
            TokenType::ROW => "ROW",
            TokenType::COLUMN => "COLUMN",
            TokenType::DIVIDER => "DIVIDER",
            TokenType::IMAGE => "IMAGE",
            TokenType::CALLS => "CALLS",
            TokenType::RECORD => "RECORD",
            TokenType::SAVE => "SAVE",
            TokenType::CREATE => "CREATE",
            TokenType::FIND => "FIND",
            TokenType::WHERE => "WHERE",
            TokenType::LET => "LET",
            TokenType::LATEST => "LATEST",
            TokenType::SET => "SET",
            TokenType::REQUIRE => "REQUIRE",
            TokenType::RETURN => "RETURN",
            TokenType::REPEAT => "REPEAT",
            TokenType::UP => "UP",
            TokenType::TO => "TO",
            TokenType::TIMES => "TIMES",
            TokenType::FOR => "FOR",
            TokenType::EACH => "EACH",
            TokenType::IN => "IN",
            TokenType::MATCH => "MATCH",
            TokenType::WHEN => "WHEN",
            TokenType::OTHERWISE => "OTHERWISE",
            TokenType::TRY => "TRY",
            TokenType::CATCH => "CATCH",
            TokenType::IF => "IF",
            TokenType::ELSE => "ELSE",
            TokenType::IS => "IS",
            TokenType::GREATER => "GREATER",
            TokenType::LESS => "LESS",
            TokenType::EQUAL => "EQUAL",
            TokenType::THAN => "THAN",
            TokenType::AND => "AND",
            TokenType::OR => "OR",
            TokenType::NOT => "NOT",
            TokenType::STATE => "STATE",
            TokenType::CONSTANT => "CONSTANT",
            TokenType::BOOLEAN => "BOOLEAN",
            TokenType::NULL => "NULL",
            TokenType::TYPE_STRING => "TYPE_STRING",
            TokenType::TYPE_INT => "TYPE_INT",
            TokenType::TYPE_NUMBER => "TYPE_NUMBER",
            TokenType::TYPE_BOOLEAN => "TYPE_BOOLEAN",
            TokenType::TYPE_JSON => "TYPE_JSON",
            TokenType::MUST => "MUST",
            TokenType::BE => "BE",
            TokenType::PRESENT => "PRESENT",
            TokenType::UNIQUE => "UNIQUE",
            TokenType::PATTERN => "PATTERN",
            TokenType::PARAM => "PARAM",
            TokenType::HAVE => "HAVE",
            TokenType::LENGTH => "LENGTH",
            TokenType::AT => "AT",
            TokenType::LEAST => "LEAST",
            TokenType::MOST => "MOST",
            TokenType::CAPABILITIES => "CAPABILITIES",
            TokenType::JOB => "JOB",
            TokenType::ENQUEUE => "ENQUEUE",
        }
    }
}

/// The reserved-word table: the tag of each reserved spelling, exactly as written.
#[verifier::opaque]
pub open spec fn keyword_of(w: Seq<char>) -> Option<TokenType> {
    if w == "flow"@ {
        Some(TokenType::FLOW)
    } else if w == "page"@ {
        Some(TokenType::PAGE)
    } else if w == "app"@ {
        Some(TokenType::APP)
    } else if w == "spec"@ {
        Some(TokenType::SPEC)
    } else if w == "ai"@ {
        Some(TokenType::AI)
    } else if w == "ask"@ {
        Some(TokenType::ASK)
    } else if w == "with"@ {
        Some(TokenType::WITH)
    } else if w == "input"@ {
        Some(TokenType::INPUT)
    } else if w == "input_schema"@ {
        Some(TokenType::INPUT_SCHEMA)
    } else if w == "output_schema"@ {
        Some(TokenType::OUTPUT_SCHEMA)
    } else if w == "as"@ {
        Some(TokenType::AS)
    } else if w == "provider"@ {
        Some(TokenType::PROVIDER)
    } else if w == "tools"@ {
        Some(TokenType::TOOLS)
    } else if w == "expose"@ {
        Some(TokenType::EXPOSE)
    } else if w == "tool"@ {
        Some(TokenType::TOOL)
    } else if w == "call"@ {
        Some(TokenType::CALL)
    } else if w == "kind"@ {
        Some(TokenType::KIND)
    } else if w == "entry"@ {
        Some(TokenType::ENTRY)
    } else if w == "purity"@ {
        Some(TokenType::PURITY)
    } else if w == "timeout_seconds"@ {
        Some(TokenType::TIMEOUT_SECONDS)
    } else if w == "memory"@ {
        Some(TokenType::MEMORY)
    } else if w == "short_term"@ {
        Some(TokenType::SHORT_TERM)
    } else if w == "semantic"@ {
        Some(TokenType::SEMANTIC)
    } else if w == "profile"@ {
        Some(TokenType::PROFILE)
    } else if w == "agent"@ {
        Some(TokenType::AGENT)
    } else if w == "agents"@ {
        Some(TokenType::AGENTS)
    } else if w == "parallel"@ {
        Some(TokenType::PARALLEL)
    } else if w == "run"@ {
        Some(TokenType::RUN)
    } else if w == "model"@ {
        Some(TokenType::MODEL)
    } else if w == "system_prompt"@ {
        Some(TokenType::SYSTEM_PROMPT)
    } else if w == "title"@ {
        Some(TokenType::TITLE)
    } else if w == "text"@ {
        Some(TokenType::TEXT)
    } else if w == "theme"@ {
        Some(TokenType::THEME)
    } else if w == "theme_tokens"@ {
        Some(TokenType::THEME_TOKENS)
    } else if w == "theme_preference"@ {
        Some(TokenType::THEME_PREFERENCE)
    } else if w == "ui"@ {
        Some(TokenType::UI)
    } else if w == "form"@ {
        Some(TokenType::FORM)
    } else if w == "table"@ {
        Some(TokenType::TABLE)
    } else if w == "button"@ {
        Some(TokenType::BUTTON)
    } else if w == "section"@ {
        Some(TokenType::SECTION)
    } else if w == "card"@ {
        Some(TokenType::CARD)
    } else if w == "row"@ {
        Some(TokenType::ROW)
    } else if w == "column"@ {
        Some(TokenType::COLUMN)
    } else if w == "divider"@ {
        Some(TokenType::DIVIDER)
    } else if w == "image"@ {
        Some(TokenType::IMAGE)
    } else if w == "calls"@ {
        Some(TokenType::CALLS)
    } else if w == "record"@ {
        Some(TokenType::RECORD)
    } else if w == "save"@ {
        Some(TokenType::SAVE)
    } else if w == "create"@ {
        Some(TokenType::CREATE)
    } else if w == "find"@ {
        Some(TokenType::FIND)
    } else if w == "where"@ {
        Some(TokenType::WHERE)
    } else if w == "let"@ {
        Some(TokenType::LET)
    } else if w == "latest"@ {
        Some(TokenType::LATEST)
    } else if w == "set"@ {
        Some(TokenType::SET)
    } else if w == "require"@ {
        Some(TokenType::REQUIRE)
    } else if w == "return"@ {
        Some(TokenType::RETURN)
    } else if w == "repeat"@ {
        Some(TokenType::REPEAT)
    } else if w == "up"@ {
        Some(TokenType::UP)
    } else if w == "to"@ {
        Some(TokenType::TO)
    } else if w == "times"@ {
        Some(TokenType::TIMES)
    } else if w == "for"@ {
        Some(TokenType::FOR)
    } else if w == "each"@ {
        Some(TokenType::EACH)
    } else if w == "in"@ {
        Some(TokenType::IN)
    } else if w == "match"@ {
        Some(TokenType::MATCH)
    } else if w == "when"@ {
        Some(TokenType::WHEN)
    } else if w == "otherwise"@ {
        Some(TokenType::OTHERWISE)
    } else if w == "try"@ {
        Some(TokenType::TRY)
    } else if w == "catch"@ {
        Some(TokenType::CATCH)
    } else if w == "if"@ {
        Some(TokenType::IF)
    } else if w == "else"@ {
        Some(TokenType::ELSE)
    } else if w == "is"@ {
        Some(TokenType::IS)
    } else if w == "greater"@ {
        Some(TokenType::GREATER)
    } else if w == "less"@ {
        Some(TokenType::LESS)
    } else if w == "equal"@ {
        Some(TokenType::EQUAL)
    } else if w == "than"@ {
        Some(TokenType::THAN)
    } else if w == "and"@ {
        Some(TokenType::AND)
    } else if w == "or"@ {
        Some(TokenType::OR)
    } else if w == "not"@ {
        Some(TokenType::NOT)
    } else if w == "state"@ {
        Some(TokenType::STATE)
    } else if w == "constant"@ {
        Some(TokenType::CONSTANT)
    } else if w == "true"@ {
        Some(TokenType::BOOLEAN)
    } else if w == "false"@ {
        Some(TokenType::BOOLEAN)
    } else if w == "null"@ {
        Some(TokenType::NULL)
    } else if w == "string"@ {
        Some(TokenType::TYPE_STRING)
    } else if w == "str"@ {
        Some(TokenType::TYPE_STRING)
    } else if w == "int"@ {
        Some(TokenType::TYPE_INT)
    } else if w == "integer"@ {
        Some(TokenType::TYPE_INT)
    } else if w == "number"@ {
        Some(TokenType::TYPE_NUMBER)
    } else if w == "boolean"@ {
        Some(TokenType::TYPE_BOOLEAN)
    } else if w == "bool"@ {
        Some(TokenType::TYPE_BOOLEAN)
    } else if w == "json"@ {
        Some(TokenType::TYPE_JSON)
    } else if w == "must"@ {
        Some(TokenType::MUST)
    } else if w == "be"@ {
        Some(TokenType::BE)
    } else if w == "present"@ {
        Some(TokenType::PRESENT)
    } else if w == "unique"@ {
        Some(TokenType::UNIQUE)
    } else if w == "pattern"@ {
        Some(TokenType::PATTERN)
    } else if w == "param"@ {
        Some(TokenType::PARAM)
    } else if w == "have"@ {
        Some(TokenType::HAVE)
    } else if w == "length"@ {
        Some(TokenType::LENGTH)
    } else if w == "at"@ {
        Some(TokenType::AT)
    } else if w == "least"@ {
        Some(TokenType::LEAST)
    } else if w == "most"@ {
        Some(TokenType::MOST)
    } else if w == "capabilities"@ {
        Some(TokenType::CAPABILITIES)
    } else if w == "job"@ {
        Some(TokenType::JOB)
    } else if w == "enqueue"@ {
        Some(TokenType::ENQUEUE)
    } else {
        None
    }
}

/// Looks `value` up in the reserved-word table.
pub fn keyword_token_type(value: &[char]) -> (r: Option<TokenType>)
    ensures
        r == keyword_of(value@),
{
    reveal(keyword_of);
    if same_text(value, "flow") {
        Some(TokenType::FLOW)
    } else if same_text(value, "page") {
        Some(TokenType::PAGE)
    } else if same_text(value, "app") {
        Some(TokenType::APP)
    } else if same_text(value, "spec") {
        Some(TokenType::SPEC)
    } else if same_text(value, "ai") {
        Some(TokenType::AI)
    } else if same_text(value, "ask") {
        Some(TokenType::ASK)
    } else if same_text(value, "with") {
        Some(TokenType::WITH)
    } else if same_text(value, "input") {
        Some(TokenType::INPUT)
    } else if same_text(value, "input_schema") {
        Some(TokenType::INPUT_SCHEMA)
    } else if same_text(value, "output_schema") {
        Some(TokenType::OUTPUT_SCHEMA)
    } else if same_text(value, "as") {
        Some(TokenType::AS)
    } else if same_text(value, "provider") {
        Some(TokenType::PROVIDER)
    } else if same_text(value, "tools") {
        Some(TokenType::TOOLS)
    } else if same_text(value, "expose") {
        Some(TokenType::EXPOSE)
    } else if same_text(value, "tool") {
        Some(TokenType::TOOL)
    } else if same_text(value, "call") {
        Some(TokenType::CALL)
    } else if same_text(value, "kind") {
        Some(TokenType::KIND)
    } else if same_text(value, "entry") {
        Some(TokenType::ENTRY)
    } else if same_text(value, "purity") {
        Some(TokenType::PURITY)
    } else if same_text(value, "timeout_seconds") {
        Some(TokenType::TIMEOUT_SECONDS)
    } else if same_text(value, "memory") {
        Some(TokenType::MEMORY)
    } else if same_text(value, "short_term") {
        Some(TokenType::SHORT_TERM)
    } else if same_text(value, "semantic") {
        Some(TokenType::SEMANTIC)
    } else if same_text(value, "profile") {
        Some(TokenType::PROFILE)
    } else if same_text(value, "agent") {
        Some(TokenType::AGENT)
    } else if same_text(value, "agents") {
        Some(TokenType::AGENTS)
    } else if same_text(value, "parallel") {
        Some(TokenType::PARALLEL)
    } else if same_text(value, "run") {
        Some(TokenType::RUN)
    } else if same_text(value, "model") {
        Some(TokenType::MODEL)
    } else if same_text(value, "system_prompt") {
        Some(TokenType::SYSTEM_PROMPT)
    } else if same_text(value, "title") {
        Some(TokenType::TITLE)
    } else if same_text(value, "text") {
        Some(TokenType::TEXT)
    } else if same_text(value, "theme") {
        Some(TokenType::THEME)
    } else if same_text(value, "theme_tokens") {
        Some(TokenType::THEME_TOKENS)
    } else if same_text(value, "theme_preference") {
        Some(TokenType::THEME_PREFERENCE)
    } else if same_text(value, "ui") {
        Some(TokenType::UI)
    } else if same_text(value, "form") {
        Some(TokenType::FORM)
    } else if same_text(value, "table") {
        Some(TokenType::TABLE)
    } else if same_text(value, "button") {
        Some(TokenType::BUTTON)
    } else if same_text(value, "section") {
        Some(TokenType::SECTION)
    } else if same_text(value, "card") {
        Some(TokenType::CARD)
    } else if same_text(value, "row") {
        Some(TokenType::ROW)
    } else if same_text(value, "column") {
        Some(TokenType::COLUMN)
    } else if same_text(value, "divider") {
        Some(TokenType::DIVIDER)
    } else if same_text(value, "image") {
        Some(TokenType::IMAGE)
    } else if same_text(value, "calls") {
        Some(TokenType::CALLS)
    } else if same_text(value, "record") {
        Some(TokenType::RECORD)
    } else if same_text(value, "save") {
        Some(TokenType::SAVE)
    } else if same_text(value, "create") {
        Some(TokenType::CREATE)
    } else if same_text(value, "find") {
        Some(TokenType::FIND)
    } else if same_text(value, "where") {
        Some(TokenType::WHERE)
    } else if same_text(value, "let") {
        Some(TokenType::LET)
    } else if same_text(value, "latest") {
        Some(TokenType::LATEST)
    } else if same_text(value, "set") {
        Some(TokenType::SET)
    } else if same_text(value, "require") {
        Some(TokenType::REQUIRE)
    } else if same_text(value, "return") {
        Some(TokenType::RETURN)
    } else if same_text(value, "repeat") {
        Some(TokenType::REPEAT)
    } else if same_text(value, "up") {
        Some(TokenType::UP)
    } else if same_text(value, "to") {
        Some(TokenType::TO)
    } else if same_text(value, "times") {
        Some(TokenType::TIMES)
    } else if same_text(value, "for") {
        Some(TokenType::FOR)
    } else if same_text(value, "each") {
        Some(TokenType::EACH)
    } else if same_text(value, "in") {
        Some(TokenType::IN)
    } else if same_text(value, "match") {
        Some(TokenType::MATCH)
    } else if same_text(value, "when") {
        Some(TokenType::WHEN)
    } else if same_text(value, "otherwise") {
        Some(TokenType::OTHERWISE)
    } else if same_text(value, "try") {
        Some(TokenType::TRY)
    } else if same_text(value, "catch") {
        Some(TokenType::CATCH)
    } else if same_text(value, "if") {
        Some(TokenType::IF)
    } else if same_text(value, "else") {
        Some(TokenType::ELSE)
    } else if same_text(value, "is") {
        Some(TokenType::IS)
    } else if same_text(value, "greater") {
        Some(TokenType::GREATER)
    } else if same_text(value, "less") {
        Some(TokenType::LESS)
    } else if same_text(value, "equal") {
        Some(TokenType::EQUAL)
    } else if same_text(value, "than") {
        Some(TokenType::THAN)
    } else if same_text(value, "and") {
        Some(TokenType::AND)
    } else if same_text(value, "or") {
        Some(TokenType::OR)
    } else if same_text(value, "not") {
        Some(TokenType::NOT)
    } else if same_text(value, "state") {
        Some(TokenType::STATE)
    } else if same_text(value, "constant") {
        Some(TokenType::CONSTANT)
    } else if same_text(value, "true") {
        Some(TokenType::BOOLEAN)
    } else if same_text(value, "false") {
        Some(TokenType::BOOLEAN)
    } else if same_text(value, "null") {
        Some(TokenType::NULL)
    } else if same_text(value, "string") {
        Some(TokenType::TYPE_STRING)
    } else if same_text(value, "str") {
        Some(TokenType::TYPE_STRING)
    } else if same_text(value, "int") {
        Some(TokenType::TYPE_INT)
    } else if same_text(value, "integer") {
        Some(TokenType::TYPE_INT)
    } else if same_text(value, "number") {
        Some(TokenType::TYPE_NUMBER)
    } else if same_text(value, "boolean") {
        Some(TokenType::TYPE_BOOLEAN)
    } else if same_text(value, "bool") {
        Some(TokenType::TYPE_BOOLEAN)
    } else if same_text(value, "json") {
        Some(TokenType::TYPE_JSON)
    } else if same_text(value, "must") {
        Some(TokenType::MUST)
    } else if same_text(value, "be") {
        Some(TokenType::BE)
    } else if same_text(value, "present") {
        Some(TokenType::PRESENT)
    } else if same_text(value, "unique") {
        Some(TokenType::UNIQUE)
    } else if same_text(value, "pattern") {
        Some(TokenType::PATTERN)
    } else if same_text(value, "param") {
        Some(TokenType::PARAM)
    } else if same_text(value, "have") {
        Some(TokenType::HAVE)
    } else if same_text(value, "length") {
        Some(TokenType::LENGTH)
    } else if same_text(value, "at") {
        Some(TokenType::AT)
    } else if same_text(value, "least") {
        Some(TokenType::LEAST)
    } else if same_text(value, "most") {
        Some(TokenType::MOST)
    } else if same_text(value, "capabilities") {
        Some(TokenType::CAPABILITIES)
    } else if same_text(value, "job") {
        Some(TokenType::JOB)
    } else if same_text(value, "enqueue") {
        Some(TokenType::ENQUEUE)
    } else {
        None
    }
}

/// A token: its tag, its text for literals, identifiers, reserved words and
/// punctuation, and its 1-based position.
#[derive(Clone, Debug)]
pub struct Token {
    pub token_type: TokenType,
    pub value: Option<String>,
    pub line: usize,
    pub column: usize,
    pub escaped: bool,
}

/// The mathematical content of a [`Token`].
pub struct TokenModel {
    pub token_type: TokenType,
    pub value: Option<Seq<char>>,
    pub line: int,
    pub column: int,
    pub escaped: bool,
}

impl View for Token {
    type V = TokenModel;

    open spec fn view(&self) -> TokenModel {
        TokenModel {
            token_type: self.token_type,
            value: match self.value {
                Some(s) => Some(s@),
                None => None,
            },
            line: self.line as int,
            column: self.column as int,
            escaped: self.escaped,
        }
    }
}

/// The scanner's single failure: malformed indentation, an unterminated
/// string, a bad escaped identifier or a character the language does not use.
#[derive(Clone, Copy, Debug, PartialEq, Eq, Structural)]
pub enum ScanError {
    Invalid,
}

pub open spec fn models(t: Seq<Token>) -> Seq<TokenModel> {
    t.map_values(|x: Token| x@)
}

/// A layout marker (`INDENT`, `DEDENT`, `NEWLINE`, `EOF`): no text.
pub open spec fn marker(t: TokenType, line: int, column: int) -> TokenModel {
    TokenModel { token_type: t, value: None, line, column, escaped: false }
}

pub open spec fn valued(t: TokenType, v: Seq<char>, line: int, column: int) -> TokenModel {
    TokenModel { token_type: t, value: Some(v), line, column, escaped: false }
}

pub open spec fn repeat(t: TokenType, n: nat, line: int, column: int) -> Seq<TokenModel> {
    Seq::new(n, |_k: int| marker(t, line, column))
}

/// `a` followed by the tokens of `rest`, or a failure if `rest` failed.
pub open spec fn prepend(a: Seq<TokenModel>, rest: Option<Seq<TokenModel>>) -> Option<Seq<TokenModel>> {
    match rest {
        Some(r) => Some(a + r),
        None => None,
    }
}

// ---------------------------------------------------------------- lines

/// The line-break characters other than CR.
pub open spec fn line_break(c: char) -> bool {
    c == '\n' || c == '\x0B' || c == '\x0C' || c == '\x1C' || c == '\x1D' || c == '\x1E'
        || c == '\u{85}' || c == '\u{2028}' || c == '\u{2029}'
}

/// The lines of `s[start..]`, where the current line began at `start` and
/// `s[start..i]` holds no break. CR LF counts as one break.
pub open spec fn split_from(s: Seq<char>, start: int, i: int) -> Seq<Seq<char>>
    decreases s.len() - i,
{
    if i >= s.len() {
        if start < s.len() {
            seq![s.subrange(start, s.len() as int)]
        } else {
            seq![]
        }
    } else if s[i] == '\r' {
        let next = if i + 1 < s.len() && s[i + 1] == '\n' { i + 2 } else { i + 1 };
        seq![s.subrange(start, i)] + split_from(s, next, next)
    } else if line_break(s[i]) {
        seq![s.subrange(start, i)] + split_from(s, i + 1, i + 1)
    } else {
        split_from(s, start, i + 1)
    }
}

/// The lines of a source text; an empty text has none, and a final break
/// opens no further line.
pub open spec fn lines_of(s: Seq<char>) -> Seq<Seq<char>> {
    split_from(s, 0, 0)
}

pub open spec fn line_views(v: Seq<Vec<char>>) -> Seq<Seq<char>> {
    v.map_values(|l: Vec<char>| l@)
}

fn is_line_break(c: char) -> (r: bool)
    ensures
        r == line_break(c),
{
    c == '\n' || c == '\x0B' || c == '\x0C' || c == '\x1C' || c == '\x1D' || c == '\x1E'
        || c == '\u{85}' || c == '\u{2028}' || c == '\u{2029}'
}

pub(crate) fn sub_chars(c: &Vec<char>, from: usize, to: usize) -> (r: Vec<char>)
    requires
        from <= to <= c.len(),
    ensures
        r@ == c@.subrange(from as int, to as int),
{
    let mut r: Vec<char> = Vec::new();
    let mut i: usize = from;
    while i < to
        invariant
            from <= i <= to <= c.len(),
            r@ == c@.subrange(from as int, i as int),
        decreases to - i,
    {
        r.push(c[i]);
        i += 1;
        assert(r@ =~= c@.subrange(from as int, i as int));
    }
    r
}

fn split_lines(s: &Vec<char>) -> (r: Vec<Vec<char>>)
    ensures
        line_views(r@) == lines_of(s@),
        r.len() <= s.len(),
        forall|k: int| 0 <= k < r.len() ==> #[trigger] r[k].len() <= s.len(),
{
    let mut lines: Vec<Vec<char>> = Vec::new();
    let mut start: usize = 0;
    let mut i: usize = 0;
    let n = s.len();
    while i < n
        invariant
            n == s.len(),
            start <= i <= n,
            lines.len() <= start,
            forall|k: int| 0 <= k < lines.len() ==> #[trigger] lines[k].len() <= s.len(),
            lines_of(s@) == line_views(lines@) + split_from(s@, start as int, i as int),
        decreases n - i,
    {
        let ch = s[i];
        if ch == '\r' || is_line_break(ch) {
            let line = sub_chars(s, start, i);
            let ghost before = lines@;
            let ghost line_start = start as int;
            let ghost at = i as int;
            lines.push(line);
            assert(line_views(lines@) =~= line_views(before) + seq![s@.subrange(start as int, i as int)]);
            if ch == '\r' && i + 1 < n && s[i + 1] == '\n' {
                i = i + 2;
            } else {
                i = i + 1;
            }
            start = i;
            assert(split_from(s@, line_start, at) == seq![s@.subrange(line_start, at)]
                + split_from(s@, start as int, i as int));
            assert(line_views(before) + (seq![s@.subrange(line_start, at)] + split_from(
                s@,
                start as int,
                i as int,
            )) =~= line_views(lines@) + split_from(s@, start as int, i as int));
        } else {
            i = i + 1;
        }
    }
    if start < n {
        let line = sub_chars(s, start, n);
        let ghost before = lines@;
        lines.push(line);
        assert(line_views(lines@) =~= line_views(before) + seq![s@.subrange(start as int, n as int)]);
    } else {
        assert(line_views(lines@) =~= line_views(lines@) + seq![]);
    }
    lines
}

// ---------------------------------------------------------------- one line

/// The one-character tokens, with their tag and text.
pub open spec fn single(c: char) -> Option<(TokenType, Seq<char>)> {
    if c == ':' {
        Some((TokenType::COLON, ":"@))
    } else if c == '.' {
        Some((TokenType::DOT, "."@))
    } else if c == '+' {
        Some((TokenType::PLUS, "+"@))
    } else if c == '-' {
        Some((TokenType::MINUS, "-"@))
    } else if c == '*' {
        Some((TokenType::STAR, "*"@))
    } else if c == '/' {
        Some((TokenType::SLASH, "/"@))
    } else if c == '%' {
        Some((TokenType::PERCENT, "%"@))
    } else if c == '=' {
        Some((TokenType::EQUALS, "="@))
    } else if c == '(' {
        Some((TokenType::LPAREN, "("@))
    } else if c == ')' {
        Some((TokenType::RPAREN, ")"@))
    } else if c == '[' {
        Some((TokenType::LBRACKET, "["@))
    } else if c == ']' {
        Some((TokenType::RBRACKET, "]"@))
    } else if c == ',' {
        Some((TokenType::COMMA, ","@))
    } else {
        None
    }
}

/// The first index at or after `j` that holds `q`.
pub open spec fn find_from(c: Seq<char>, j: int, q: char) -> Option<int>
    decreases c.len() - j,
{
    if j < 0 || j >= c.len() {
        None
    } else if c[j] == q {
        Some(j)
    } else {
        find_from(c, j + 1, q)
    }
}

/// The end of the run of ASCII digits that starts at `j`.
pub open spec fn digits_end(c: Seq<char>, j: int) -> int
    decreases c.len() - j,
{
    if 0 <= j < c.len() && digit(c[j]) {
        digits_end(c, j + 1)
    } else {
        j
    }
}

/// The end of a number literal at `i`: digits, then `.` and digits only when
/// a digit follows the dot.
pub open spec fn number_end(c: Seq<char>, i: int) -> int {
    let e = digits_end(c, i);
    if e + 1 < c.len() && c[e] == '.' && digit(c[e + 1]) {
        digits_end(c, e + 1)
    } else {
        e
    }
}

pub open spec fn word_start(c: char) -> bool {
    alphabetic(c) || c == '_'
}

pub open spec fn word_char(c: char) -> bool {
    alphanumeric(c) || c == '_'
}

/// The end of the run of identifier characters that starts at `j`.
pub open spec fn word_end(c: Seq<char>, j: int) -> int
    decreases c.len() - j,
{
    if 0 <= j < c.len() && word_char(c[j]) {
        word_end(c, j + 1)
    } else {
        j
    }
}

/// Identifier syntax: a letter or `_`, then letters, digits or `_`.
pub open spec fn identifier_text(s: Seq<char>) -> bool {
    &&& s.len() > 0
    &&& word_start(s[0])
    &&& forall|k: int| 1 <= k < s.len() ==> word_char(#[trigger] s[k])
}

/// The token that starts at index `i` of line `line` (none for a space) and
/// the index just after it; `None` when no token can start there.
pub open spec fn next_token(c: Seq<char>, i: int, line: int) -> Option<(Seq<TokenModel>, int)> {
    let ch = c[i];
    if ch == ' ' {
        Some((seq![], i + 1))
    } else if ch == '*' && i + 1 < c.len() && c[i + 1] == '*' {
        Some((seq![valued(TokenType::POWER, "**"@, line, i + 1)], i + 2))
    } else if single(ch) is Some {
        let (t, text) = single(ch)->0;
        Some((seq![valued(t, text, line, i + 1)], i + 1))
    } else if ch == '`' {
        match find_from(c, i + 1, '`') {
            Some(j) => if identifier_text(c.subrange(i + 1, j)) {
                let tok = TokenModel {
                    token_type: TokenType::IDENT_ESCAPED,
                    value: Some(c.subrange(i + 1, j)),
                    line,
                    column: i + 1,
                    escaped: true,
                };
                Some((seq![tok], j + 1))
            } else {
                None
            },
            None => None,
        }
    } else if ch == '"' {
        match find_from(c, i + 1, '"') {
            Some(j) => Some((seq![valued(TokenType::STRING, c.subrange(i + 1, j), line, i + 1)], j + 1)),
            None => None,
        }
    } else if digit(ch) {
        let e = number_end(c, i);
        Some((seq![valued(TokenType::NUMBER, c.subrange(i, e), line, i + 1)], e))
    } else if word_start(ch) {
        let e = word_end(c, i);
        let w = c.subrange(i, e);
        let t = match keyword_of(w) {
            Some(k) => k,
            None => TokenType::IDENT,
        };
        Some((seq![valued(t, w, line, i + 1)], e))
    } else {
        None
    }
}

/// The tokens of `c[i..]` on line `line`; the character at index `i` stands
/// in column `i + 1`. `None` when the rest of the line does not scan.
pub open spec fn line_tokens(c: Seq<char>, i: int, line: int) -> Option<Seq<TokenModel>>
    decreases c.len() - i,
{
    if i < 0 || i >= c.len() {
        Some(seq![])
    } else {
        match next_token(c, i, line) {
            Some((t, j)) => if i < j <= c.len() {
                prepend(t, line_tokens(c, j, line))
            } else {
                None
            },
            None => None,
        }
    }
}

proof fn lemma_prepend_assoc(a: Seq<TokenModel>, b: Seq<TokenModel>, r: Option<Seq<TokenModel>>)
    ensures
        prepend(a, prepend(b, r)) == prepend(a + b, r),
{
    if let Some(x) = r {
        assert(a + (b + x) =~= (a + b) + x);
    }
}

fn emit(tokens: &mut Vec<Token>, t: Token)
    ensures
        models(final(tokens)@) == models(old(tokens)@) + seq![t@],
{
    let ghost before = tokens@;
    tokens.push(t);
    assert(models(tokens@) =~= models(before) + seq![t@]);
}

fn marker_token(token_type: TokenType, line: usize, column: usize) -> (r: Token)
    ensures
        r@ == marker(token_type, line as int, column as int),
{
    Token { token_type, value: None, line, column, escaped: false }
}

fn simple_token(token_type: TokenType, value: &str, line: usize, column: usize) -> (r: Token)
    ensures
        r@ == valued(token_type, value@, line as int, column as int),
{
    let text = chars_of(value);
    Token { token_type, value: Some(string_of(text.as_slice())), line, column, escaped: false }
}

fn single_token(c: char) -> (r: Option<(TokenType, &'static str)>)
    ensures
        match r {
            Some(p) => single(c) == Some((p.0, p.1@)),
            None => single(c) is None,
        },
{
    match c {
        ':' => Some((TokenType::COLON, ":")),
        '.' => Some((TokenType::DOT, ".")),
        '+' => Some((TokenType::PLUS, "+")),
        '-' => Some((TokenType::MINUS, "-")),
        '*' => Some((TokenType::STAR, "*")),
        '/' => Some((TokenType::SLASH, "/")),
        '%' => Some((TokenType::PERCENT, "%")),
        '=' => Some((TokenType::EQUALS, "=")),
        '(' => Some((TokenType::LPAREN, "(")),
        ')' => Some((TokenType::RPAREN, ")")),
        '[' => Some((TokenType::LBRACKET, "[")),
        ']' => Some((TokenType::RBRACKET, "]")),
        ',' => Some((TokenType::COMMA, ",")),
        _ => None,
    }
}

/// Reads a double-quoted string whose opening quote is at `start`: its text,
/// without escape processing, and the characters consumed.
fn read_string(chars: &Vec<char>, start: usize) -> (r: Result<(String, usize), ScanError>)
    requires
        start < chars.len(),
    ensures
        match find_from(chars@, start + 1, '"') {
            Some(j) => r matches Ok((v, n)) && start < j < chars.len() && v@ == chars@.subrange(start + 1, j)
                && n == j - start + 1,
            None => r is Err,
        },
{
    let mut i = start + 1;
    while i < chars.len()
        invariant
            start < i <= chars.len(),
            find_from(chars@, start + 1, '"') == find_from(chars@, i as int, '"'),
        decreases chars.len() - i,
    {
        if chars[i] == '"' {
            let value = sub_chars(chars, start + 1, i);
            return Ok((string_of(value.as_slice()), i - start + 1));
        }
        i += 1;
    }
    Err(ScanError::Invalid)
}

/// Reads a number literal that starts at `start`: its text and length.
fn read_number(chars: &Vec<char>, start: usize) -> (r: (String, usize))
    requires
        start < chars.len(),
        digit(chars@[start as int]),
    ensures
        r.1 > 0,
        start + r.1 <= chars.len(),
        start + r.1 == number_end(chars@, start as int),
        r.0@ == chars@.subrange(start as int, number_end(chars@, start as int)),
{
    let mut i = start;
    while i < chars.len() && is_digit(chars[i])
        invariant
            start <= i <= chars.len(),
            digits_end(chars@, start as int) == digits_end(chars@, i as int),
            i == start ==> digit(chars@[start as int]),
        decreases chars.len() - i,
    {
        i += 1;
    }
    assert(digits_end(chars@, i as int) == i as int);
    if i < chars.len() && chars[i] == '.' && i + 1 < chars.len() && is_digit(chars[i + 1]) {
        i += 1;
        while i < chars.len() && is_digit(chars[i])
            invariant
                start < i <= chars.len(),
                number_end(chars@, start as int) == digits_end(chars@, i as int),
            decreases chars.len() - i,
        {
            i += 1;
        }
    }
    let value = sub_chars(chars, start, i);
    (string_of(value.as_slice()), i - start)
}

/// Reads an identifier or reserved word that starts at `start`.
fn read_identifier(chars: &Vec<char>, start: usize) -> (r: (Vec<char>, usize))
    requires
        start < chars.len(),
        word_start(chars@[start as int]),
    ensures
        r.1 > 0,
        start + r.1 <= chars.len(),
        start + r.1 == word_end(chars@, start as int),
        r.0@ == chars@.subrange(start as int, word_end(chars@, start as int)),
{
    let mut i = start;
    // every alphabetic character is alphanumeric: the run is not empty
    let starts_run = is_alphanumeric(chars[start]);
    assert(starts_run || chars@[start as int] == '_');
    while i < chars.len() && (is_alphanumeric(chars[i]) || chars[i] == '_')
        invariant
            start <= i <= chars.len(),
            word_end(chars@, start as int) == word_end(chars@, i as int),
            i == start ==> word_char(chars@[start as int]),
        decreases chars.len() - i,
    {
        i += 1;
    }
    let value = sub_chars(chars, start, i);
    (value, i - start)
}

fn is_identifier_text(value: &[char]) -> (r: bool)
    ensures
        r == identifier_text(value@),
{
    if value.len() == 0 {
        return false;
    }
    let first = value[0];
    if !(is_alphabetic(first) || first == '_') {
        return false;
    }
    let mut i: usize = 1;
    while i < value.len()
        invariant
            1 <= i <= value@.len(),
            forall|k: int| 1 <= k < i ==> word_char(#[trigger] value@[k]),
        decreases value.len() - i,
    {
        let ch = value[i];
        if !(is_alphanumeric(ch) || ch == '_') {
            return false;
        }
        i += 1;
    }
    true
}

/// Reads a back-tick identifier whose opening back-tick is at `start`.
fn read_escaped_identifier(chars: &Vec<char>, start: usize) -> (r: Result<(String, usize), ScanError>)
    requires
        start < chars.len(),
    ensures
        match find_from(chars@, start + 1, '`') {
            Some(j) => if identifier_text(chars@.subrange(start + 1, j)) {
                r matches Ok((v, n)) && start < j < chars.len() && v@ == chars@.subrange(start + 1, j) && n == j
                    - start + 1
            } else {
                r is Err
            },
            None => r is Err,
        },
{
    let mut i = start + 1;
    while i < chars.len()
        invariant
            start < i <= chars.len(),
            find_from(chars@, start + 1, '`') == find_from(chars@, i as int, '`'),
        decreases chars.len() - i,
    {
        if chars[i] == '`' {
            let value = sub_chars(chars, start + 1, i);
            if value.len() == 0 {
                return Err(ScanError::Invalid);
            }
            if !is_identifier_text(value.as_slice()) {
                return Err(ScanError::Invalid);
            }
            return Ok((string_of(value.as_slice()), i - start + 1));
        }
        i += 1;
    }
    Err(ScanError::Invalid)
}


/// Reads the token that starts at index `i`: none for a space, with the
/// index just after it.
fn scan_token(chars: &Vec<char>, i: usize, line_no: usize) -> (r: Result<(Option<Token>, usize), ScanError>)
    requires
        i < chars.len() < usize::MAX,
    ensures
        match r {
            Ok((t, j)) => i < j <= chars.len() && next_token(chars@, i as int, line_no as int) == Some(
                (
                    match t {
                        Some(tok) => seq![tok@],
                        None => seq![],
                    },
                    j as int,
                ),
            ),
            Err(_) => next_token(chars@, i as int, line_no as int) is None,
        },
{
    let ch = chars[i];
    let column = i + 1;
    if ch == ' ' {
        Ok((None, i + 1))
    } else if ch == '*' && i + 1 < chars.len() && chars[i + 1] == '*' {
        Ok((Some(simple_token(TokenType::POWER, "**", line_no, column)), i + 2))
    } else if let Some((token_type, text)) = single_token(ch) {
        Ok((Some(simple_token(token_type, text, line_no, column)), i + 1))
    } else if ch == '`' {
        let (value, consumed) = read_escaped_identifier(chars, i)?;
        let tok = Token {
            token_type: TokenType::IDENT_ESCAPED,
            value: Some(value),
            line: line_no,
            column,
            escaped: true,
        };
        Ok((Some(tok), i + consumed))
    } else if ch == '"' {
        let (value, consumed) = read_string(chars, i)?;
        let tok = Token { token_type: TokenType::STRING, value: Some(value), line: line_no, column, escaped: false };
        Ok((Some(tok), i + consumed))
    } else if is_digit(ch) {
        let (value, consumed) = read_number(chars, i);
        let tok = Token { token_type: TokenType::NUMBER, value: Some(value), line: line_no, column, escaped: false };
        Ok((Some(tok), i + consumed))
    } else if is_alphabetic(ch) || ch == '_' {
        let (word, consumed) = read_identifier(chars, i);
        let token_type = match keyword_token_type(word.as_slice()) {
            Some(t) => t,
            None => TokenType::IDENT,
        };
        let tok = Token {
            token_type,
            value: Some(string_of(word.as_slice())),
            line: line_no,
            column,
            escaped: false,
        };
        Ok((Some(tok), i + consumed))
    } else {
        Err(ScanError::Invalid)
    }
}

/// Cuts `chars[from..]`, the part of line `line_no` after its indentation,
/// into tokens.
fn scan_line(chars: &Vec<char>, from: usize, line_no: usize) -> (r: Result<Vec<Token>, ScanError>)
    requires
        from <= chars.len() < usize::MAX,
    ensures
        match r {
            Ok(t) => line_tokens(chars@, from as int, line_no as int) == Some(models(t@)),
            Err(_) => line_tokens(chars@, from as int, line_no as int) is None,
        },
{
    let ghost c = chars@;
    let ghost line = line_no as int;
    let mut tokens: Vec<Token> = Vec::new();
    let mut i = from;
    assert(prepend(models(tokens@), line_tokens(c, from as int, line)) == line_tokens(c, from as int, line)) by {
        if let Some(x) = line_tokens(c, from as int, line) {
            assert(models(tokens@) + x =~= x);
        }
    }
    while i < chars.len()
        invariant
            c == chars@,
            line == line_no as int,
            from <= i <= chars.len() < usize::MAX,
            line_tokens(c, from as int, line) == prepend(models(tokens@), line_tokens(c, i as int, line)),
        decreases chars.len() - i,
    {
        let ghost before = models(tokens@);
        let (tok, next) = match scan_token(chars, i, line_no) {
            Ok(p) => p,
            Err(e) => {
                assert(line_tokens(c, i as int, line) is None);
                return Err(e);
            },
        };
        let ghost added: Seq<TokenModel> = match &tok {
            Some(t) => seq![t@],
            None => seq![],
        };
        if let Some(t) = tok {
            emit(&mut tokens, t);
        } else {
            assert(before + added =~= before);
        }
        assert(line_tokens(c, i as int, line) == prepend(added, line_tokens(c, next as int, line)));
        proof {
            lemma_prepend_assoc(before, added, line_tokens(c, next as int, line));
        }
        i = next;
    }
    assert(models(tokens@) + seq![] =~= models(tokens@));
    Ok(tokens)
}

// ---------------------------------------------------------------- layout

/// The end of the run of Unicode white space that starts at `j`.
pub open spec fn blank_end(s: Seq<char>, j: int) -> int
    decreases s.len() - j,
{
    if 0 <= j < s.len() && whitespace(s[j]) {
        blank_end(s, j + 1)
    } else {
        j
    }
}

/// The end of the run of ASCII spaces that starts at `j`.
pub open spec fn spaces_end(s: Seq<char>, j: int) -> int
    decreases s.len() - j,
{
    if 0 <= j < s.len() && s[j] == ' ' {
        spaces_end(s, j + 1)
    } else {
        j
    }
}

/// A line that is all white space, or whose first other character is `#`:
/// it takes no part in the indentation and yields no token.
pub open spec fn skipped(s: Seq<char>) -> bool {
    let b = blank_end(s, 0);
    b >= s.len() || s[b] == '#'
}

/// The open indentation level: the top of the stack.
pub open spec fn top_of(stack: Seq<usize>) -> int {
    if stack.len() > 0 {
        stack.last() as int
    } else {
        0
    }
}

/// Closes the levels deeper than `width`: the remaining stack and how many
/// levels were closed.
pub open spec fn unwind(stack: Seq<usize>, width: int) -> (Seq<usize>, nat)
    decreases stack.len(),
{
    if stack.len() > 0 && width < stack.last() {
        let r = unwind(stack.drop_last(), width);
        (r.0, r.1 + 1)
    } else {
        (stack, 0)
    }
}

/// The layout tokens that a line indented by `width` opens with, and the
/// stack after it; `None` when the line closes blocks to a width that was
/// never opened.
pub open spec fn open_line(stack: Seq<usize>, width: int, line: int) -> Option<(Seq<TokenModel>, Seq<usize>)> {
    if width > top_of(stack) {
        Some((seq![marker(TokenType::INDENT, line, 1)], stack.push(width as usize)))
    } else {
        let u = unwind(stack, width);
        if top_of(u.0) == width {
            Some((repeat(TokenType::DEDENT, u.1, line, 1), u.0))
        } else {
            None
        }
    }
}

/// What follows the last line: one `DEDENT` per level still open above the
/// root, then `EOF`.
pub open spec fn finish(stack: Seq<usize>, n_lines: int) -> Seq<TokenModel> {
    let open = if stack.len() > 1 { (stack.len() - 1) as nat } else { 0 };
    repeat(TokenType::DEDENT, open, n_lines, 1).push(marker(TokenType::EOF, n_lines + 1, 1))
}

/// The tokens of lines `k..` given the indentation stack before line `k`.
pub open spec fn scan_lines(lines: Seq<Seq<char>>, k: int, stack: Seq<usize>) -> Option<Seq<TokenModel>>
    decreases lines.len() - k,
{
    if k < 0 || k >= lines.len() {
        Some(finish(stack, lines.len() as int))
    } else if skipped(lines[k]) {
        scan_lines(lines, k + 1, stack)
    } else {
        let raw = lines[k];
        let width = spaces_end(raw, 0);
        match open_line(stack, width, k + 1) {
            None => None,
            Some((opening, next_stack)) => match line_tokens(raw, width, k + 1) {
                None => None,
                Some(body) => prepend(
                    opening + body + seq![marker(TokenType::NEWLINE, k + 1, raw.len() + 1 as int)],
                    scan_lines(lines, k + 1, next_stack),
                ),
            },
        }
    }
}

/// The token stream of a whole source text, or `None` when it does not scan.
pub open spec fn scan_source(src: Seq<char>) -> Option<Seq<TokenModel>> {
    scan_lines(lines_of(src), 0, seq![0usize])
}

fn leading_spaces(text: &Vec<char>) -> (r: usize)
    ensures
        r == spaces_end(text@, 0),
        r <= text.len(),
{
    let mut i: usize = 0;
    while i < text.len() && text[i] == ' '
        invariant
            i <= text.len(),
            spaces_end(text@, 0) == spaces_end(text@, i as int),
        decreases text.len() - i,
    {
        i += 1;
    }
    i
}

/// Whether the line is blank or a comment.
fn is_skipped(text: &Vec<char>) -> (r: bool)
    ensures
        r == skipped(text@),
{
    let mut i: usize = 0;
    while i < text.len() && is_whitespace(text[i])
        invariant
            i <= text.len(),
            blank_end(text@, 0) == blank_end(text@, i as int),
        decreases text.len() - i,
    {
        i += 1;
    }
    i >= text.len() || text[i] == '#'
}

/// Scans `source` into its token stream.
pub fn scan(source: &str) -> (r: Result<Vec<Token>, ScanError>)
    requires
        source@.len() < usize::MAX,
    ensures
        match r {
            Ok(t) => scan_source(source@) == Some(models(t@)),
            Err(_) => scan_source(source@) is None,
        },
{
    let chars = chars_of(source);
    let lines = split_lines(&chars);
    let ghost all = lines_of(source@);
    let mut tokens: Vec<Token> = Vec::new();
    let mut stack: Vec<usize> = Vec::new();
    stack.push(0);
    let mut k: usize = 0;
    assert(stack@ =~= seq![0usize]);
    assert(prepend(models(tokens@), scan_lines(all, 0, stack@)) == scan_lines(all, 0, stack@)) by {
        if let Some(x) = scan_lines(all, 0, stack@) {
            assert(models(tokens@) + x =~= x);
        }
    }
    while k < lines.len()
        invariant
            all == lines_of(source@),
            line_views(lines@) == all,
            k <= lines.len() <= chars.len() < usize::MAX,
            chars@ == source@,
            forall|j: int| 0 <= j < lines.len() ==> #[trigger] lines[j].len() <= chars.len(),
            stack@.len() >= 1,
            stack@[0] == 0,
            scan_source(source@) == prepend(models(tokens@), scan_lines(all, k as int, stack@)),
        decreases lines.len() - k,
    {
        let raw = &lines[k];
        let line_no = k + 1;
        let ghost before = models(tokens@);
        let ghost stack_before = stack@;
        assert(all[k as int] == raw@);
        if is_skipped(raw) {
            k += 1;
            continue;
        }
        let indent = leading_spaces(raw);
        let top = stack[stack.len() - 1];
        if indent > top {
            emit(&mut tokens, marker_token(TokenType::INDENT, line_no, 1));
            stack.push(indent);
        } else {
            let ghost closed: nat = 0;
            while indent < stack[stack.len() - 1]
                invariant
                    stack@.len() >= 1,
                    stack@[0] == 0,
                    unwind(stack_before, indent as int) == (unwind(stack@, indent as int).0, unwind(
                        stack@,
                        indent as int,
                    ).1 + closed),
                    models(tokens@) == before + repeat(TokenType::DEDENT, closed, line_no as int, 1),
                decreases stack.len(),
            {
                stack.pop();
                emit(&mut tokens, marker_token(TokenType::DEDENT, line_no, 1));
                proof {
                    assert(repeat(TokenType::DEDENT, closed, line_no as int, 1).push(
                        marker(TokenType::DEDENT, line_no as int, 1),
                    ) =~= repeat(TokenType::DEDENT, closed + 1, line_no as int, 1));
                    closed = closed + 1;
                }
            }
            if indent != stack[stack.len() - 1] {
                return Err(ScanError::Invalid);
            }
        }
        let ghost opened = models(tokens@).subrange(before.len() as int, models(tokens@).len() as int);
        assert(before + opened =~= models(tokens@));
        assert(open_line(stack_before, indent as int, line_no as int) == Some((opened, stack@))) by {
            if indent > top {
                assert(opened =~= seq![marker(TokenType::INDENT, line_no as int, 1)]);
                assert(stack@ =~= stack_before.push(indent));
            }
        }
        let mut body = match scan_line(raw, indent, line_no) {
            Ok(t) => t,
            Err(e) => {
                return Err(e);
            },
        };
        let ghost body_models = models(body@);
        let ghost with_open = tokens@;
        tokens.append(&mut body);
        assert(models(tokens@) =~= models(with_open) + body_models);
        emit(&mut tokens, marker_token(TokenType::NEWLINE, line_no, raw.len() + 1));
        proof {
            let added = opened + body_models + seq![marker(TokenType::NEWLINE, line_no as int, raw@.len() + 1 as int)];
            assert(models(tokens@) =~= before + added);
            lemma_prepend_assoc(before, added, scan_lines(all, k + 1, stack@));
        }
        k += 1;
    }
    let n_lines = lines.len();
    let ghost before = models(tokens@);
    let ghost stack_before = stack@;
    let ghost closed: nat = 0;
    while stack.len() > 1
        invariant
            stack@.len() >= 1,
            closed + stack@.len() == stack_before.len(),
            models(tokens@) == before + repeat(TokenType::DEDENT, closed, n_lines as int, 1),
        decreases stack.len(),
    {
        stack.pop();
        emit(&mut tokens, marker_token(TokenType::DEDENT, n_lines, 1));
        proof {
            assert(repeat(TokenType::DEDENT, closed, n_lines as int, 1).push(
                marker(TokenType::DEDENT, n_lines as int, 1),
            ) =~= repeat(TokenType::DEDENT, closed + 1, n_lines as int, 1));
            closed = closed + 1;
        }
    }
    emit(&mut tokens, marker_token(TokenType::EOF, n_lines + 1, 1));
    assert(models(tokens@) =~= before + finish(stack_before, n_lines as int));
    Ok(tokens)
}

// ---------------------------------------------------------------- balance

/// How a token moves the indentation depth.
pub open spec fn shift(t: TokenModel) -> int {
    if t.token_type == TokenType::INDENT {
        1
    } else if t.token_type == TokenType::DEDENT {
        -1
    } else {
        0
    }
}

/// The number of `INDENT` tokens in `t` minus the number of `DEDENT` tokens.
pub open spec fn depth(t: Seq<TokenModel>) -> int
    decreases t.len(),
{
    if t.len() == 0 {
        0
    } else {
        depth(t.drop_last()) + shift(t.last())
    }
}

/// Starting at depth `base`, no prefix of `t` goes below depth zero.
pub open spec fn stays_above(t: Seq<TokenModel>, base: int) -> bool {
    forall|n: int| 0 <= n <= t.len() ==> base + depth(#[trigger] t.subrange(0, n)) >= 0
}

proof fn lemma_depth_concat(a: Seq<TokenModel>, b: Seq<TokenModel>)
    ensures
        depth(a + b) == depth(a) + depth(b),
    decreases b.len(),
{
    if b.len() == 0 {
        assert(a + b =~= a);
    } else {
        lemma_depth_concat(a, b.drop_last());
        assert((a + b).drop_last() =~= a + b.drop_last());
    }
}

proof fn lemma_stays_concat(a: Seq<TokenModel>, b: Seq<TokenModel>, base: int)
    requires
        stays_above(a, base),
        stays_above(b, base + depth(a)),
    ensures
        stays_above(a + b, base),
{
    assert forall|n: int| 0 <= n <= (a + b).len() implies base + depth(#[trigger] (a + b).subrange(0, n))
        >= 0 by {
        if n <= a.len() {
            assert((a + b).subrange(0, n) =~= a.subrange(0, n));
        } else {
            let m = n - a.len();
            assert((a + b).subrange(0, n) =~= a + b.subrange(0, m));
            assert(a.subrange(0, a.len() as int) =~= a);
            assert(b.subrange(0, m) == b.subrange(0, m));
            lemma_depth_concat(a, b.subrange(0, m));
        }
    }
}

/// A sequence without layout tokens keeps the depth where it is.
proof fn lemma_neutral(t: Seq<TokenModel>, base: int)
    requires
        base >= 0,
        forall|i: int| 0 <= i < t.len() ==> shift(#[trigger] t[i]) == 0,
    ensures
        depth(t) == 0,
        stays_above(t, base),
    decreases t.len(),
{
    if t.len() > 0 {
        lemma_neutral(t.drop_last(), base);
    }
    assert forall|n: int| 0 <= n <= t.len() implies base + depth(#[trigger] t.subrange(0, n)) >= 0 by {
        if n < t.len() {
            let p = t.drop_last();
            assert(t.subrange(0, n) =~= p.subrange(0, n));
        } else {
            assert(t.subrange(0, n) =~= t);
        }
    }
}

proof fn lemma_repeat_dedent(m: nat, line: int, base: int)
    requires
        base >= m,
    ensures
        depth(repeat(TokenType::DEDENT, m, line, 1)) == -m,
        stays_above(repeat(TokenType::DEDENT, m, line, 1), base),
    decreases m,
{
    let r = repeat(TokenType::DEDENT, m, line, 1);
    if m > 0 {
        lemma_repeat_dedent((m - 1) as nat, line, base);
        assert(r.drop_last() =~= repeat(TokenType::DEDENT, (m - 1) as nat, line, 1));
    }
    assert forall|n: int| 0 <= n <= r.len() implies base + depth(#[trigger] r.subrange(0, n)) >= 0 by {
        if n < r.len() {
            let p = repeat(TokenType::DEDENT, (m - 1) as nat, line, 1);
            assert(r.subrange(0, n) =~= p.subrange(0, n));
        } else {
            assert(r.subrange(0, n) =~= r);
        }
    }
}

proof fn lemma_keyword_not_layout(w: Seq<char>)
    ensures
        keyword_of(w) matches Some(t) ==> t != TokenType::INDENT && t != TokenType::DEDENT,
{
    reveal(keyword_of);
}

proof fn lemma_line_tokens_neutral(c: Seq<char>, i: int, line: int)
    requires
        line_tokens(c, i, line) is Some,
    ensures
        forall|k: int| 0 <= k < line_tokens(c, i, line)->0.len() ==> shift(
            #[trigger] line_tokens(c, i, line)->0[k],
        ) == 0,
    decreases c.len() - i,
{
    if 0 <= i < c.len() {
        let (t, j) = next_token(c, i, line)->0;
        if word_start(c[i]) {
            lemma_keyword_not_layout(c.subrange(i, word_end(c, i)));
        }
        lemma_line_tokens_neutral(c, j, line);
        let rest = line_tokens(c, j, line)->0;
        assert(line_tokens(c, i, line)->0 =~= t + rest);
        assert forall|k: int| 0 <= k < (t + rest).len() implies shift(#[trigger] (t + rest)[k]) == 0 by {
            if k >= t.len() {
                assert((t + rest)[k] == rest[k - t.len()]);
            }
        }
    }
}

proof fn lemma_unwind(stack: Seq<usize>, width: int)
    requires
        stack.len() >= 1,
        stack[0] == 0,
        width >= 0,
    ensures
        unwind(stack, width).0.len() + unwind(stack, width).1 == stack.len(),
        unwind(stack, width).0.len() >= 1,
        unwind(stack, width).0[0] == 0,
    decreases stack.len(),
{
    if width < stack.last() {
        lemma_unwind(stack.drop_last(), width);
    }
}

proof fn lemma_scan_lines_balanced(lines: Seq<Seq<char>>, k: int, stack: Seq<usize>)
    requires
        0 <= k,
        stack.len() >= 1,
        stack[0] == 0,
        scan_lines(lines, k, stack) is Some,
    ensures
        stack.len() - 1 + depth(scan_lines(lines, k, stack)->0) == 0,
        stays_above(scan_lines(lines, k, stack)->0, stack.len() - 1),
    decreases lines.len() - k,
{
    let base = stack.len() - 1;
    if k >= lines.len() {
        let open = (stack.len() - 1) as nat;
        let dedents = repeat(TokenType::DEDENT, open, lines.len() as int, 1);
        let eof = seq![marker(TokenType::EOF, lines.len() + 1 as int, 1)];
        lemma_repeat_dedent(open, lines.len() as int, base);
        lemma_neutral(eof, 0);
        lemma_stays_concat(dedents, eof, base);
        lemma_depth_concat(dedents, eof);
        assert(finish(stack, lines.len() as int) =~= dedents + eof);
    } else if skipped(lines[k]) {
        lemma_scan_lines_balanced(lines, k + 1, stack);
    } else {
        let raw = lines[k];
        let width = spaces_end(raw, 0);
        assert(width >= 0) by {
            lemma_spaces_end_ge(raw, 0);
        }
        let (opening, next_stack) = open_line(stack, width, k + 1)->0;
        let body = line_tokens(raw, width, k + 1)->0;
        let nl = seq![marker(TokenType::NEWLINE, k + 1, raw.len() + 1 as int)];
        let rest = scan_lines(lines, k + 1, next_stack)->0;
        if width > top_of(stack) {
            assert(next_stack[0] == 0);
            assert(opening.drop_last() =~= Seq::<TokenModel>::empty());
            assert(depth(Seq::<TokenModel>::empty()) == 0);
            assert(depth(opening) == 1);
            assert forall|n: int| 0 <= n <= opening.len() implies base + depth(
                #[trigger] opening.subrange(0, n),
            ) >= 0 by {
                if n == 0 {
                    assert(opening.subrange(0, n) =~= Seq::<TokenModel>::empty());
                } else {
                    assert(opening.subrange(0, n) =~= opening);
                }
            }
        } else {
            let u = unwind(stack, width);
            lemma_unwind(stack, width);
            lemma_repeat_dedent(u.1, k + 1, base);
        }
        lemma_scan_lines_balanced(lines, k + 1, next_stack);
        lemma_line_tokens_neutral(raw, width, k + 1);
        lemma_neutral(body, base + depth(opening));
        lemma_neutral(nl, base + depth(opening));
        lemma_stays_concat(opening, body, base);
        lemma_depth_concat(opening, body);
        lemma_stays_concat(opening + body, nl, base);
        lemma_depth_concat(opening + body, nl);
        lemma_stays_concat(opening + body + nl, rest, base);
        lemma_depth_concat(opening + body + nl, rest);
    }
}

proof fn lemma_spaces_end_ge(s: Seq<char>, j: int)
    ensures
        spaces_end(s, j) >= j,
    decreases s.len() - j,
{
    if 0 <= j < s.len() && s[j] == ' ' {
        lemma_spaces_end_ge(s, j + 1);
    }
}

/// Indentation balance: in the tokens of every source that scans, each
/// prefix holds at least as many `INDENT` as `DEDENT` tokens (the depth never
/// drops below the root), and the whole stream holds as many of each: at the
/// end only the root level is open, so the difference is its depth minus one.
pub proof fn lemma_indentation_balanced(src: Seq<char>)
    requires
        scan_source(src) is Some,
    ensures
        depth(scan_source(src)->0) == 0,
        stays_above(scan_source(src)->0, 0),
{
    lemma_scan_lines_balanced(lines_of(src), 0, seq![0usize]);
}

// ---------------------------------------------------------------- JSON form

/// One token as a JSON object, keys in lexicographic order.
pub open spec fn token_text(t: TokenModel) -> Seq<char> {
    "{\"column\":"@ + decimal(t.column as nat) + ",\"escaped\":"@ + (if t.escaped {
        "true"@
    } else {
        "false"@
    }) + ",\"line\":"@ + decimal(t.line as nat) + ",\"type\":"@ + quoted(tag_name(t.token_type))
        + ",\"value\":"@ + match t.value {
        Some(v) => quoted(v),
        None => "null"@,
    } + "}"@
}

/// Token objects separated by commas.
pub open spec fn token_list_text(ts: Seq<TokenModel>) -> Seq<char>
    decreases ts.len(),
{
    if ts.len() == 0 {
        seq![]
    } else if ts.len() == 1 {
        token_text(ts[0])
    } else {
        token_list_text(ts.drop_last()) + seq![','] + token_text(ts.last())
    }
}

/// The JSON array of a token stream.
pub open spec fn tokens_json(ts: Seq<TokenModel>) -> Seq<char> {
    seq!['['] + token_list_text(ts) + seq![']']
}

fn write_token(out: &mut String, token: &Token)
    ensures
        final(out)@ == old(out)@ + token_text(token@),
{
    out.append("{\"column\":");
    push_decimal(out, token.column as u128);
    out.append(",\"escaped\":");
    if token.escaped {
        out.append("true");
    } else {
        out.append("false");
    }
    out.append(",\"line\":");
    push_decimal(out, token.line as u128);
    out.append(",\"type\":");
    push_json_string(out, token.token_type.name());
    out.append(",\"value\":");
    match &token.value {
        Some(value) => push_json_string(out, value.as_str()),
        None => out.append("null"),
    }
    out.append("}");
    assert(final(out)@ =~= old(out)@ + token_text(token@));
}

/// The token stream as UTF-8 JSON: an array of objects with the keys
/// `column`, `escaped`, `line`, `type` and `value`.
pub fn tokens_to_json(tokens: &[Token]) -> (r: Vec<u8>)
    ensures
        r@ == encode_utf8(tokens_json(models(tokens@))),
{
    let mut out = String::new();
    push_char(&mut out, '[');
    let mut i: usize = 0;
    while i < tokens.len()
        invariant
            i <= tokens.len(),
            out@ == seq!['['] + token_list_text(models(tokens@.subrange(0, i as int))),
        decreases tokens.len() - i,
    {
        let ghost done = models(tokens@.subrange(0, i as int));
        if i > 0 {
            push_char(&mut out, ',');
        }
        write_token(&mut out, &tokens[i]);
        proof {
            let next = models(tokens@.subrange(0, i + 1));
            assert(next.drop_last() =~= done);
            assert(out@ =~= seq!['['] + token_list_text(next));
        }
        i += 1;
    }
    push_char(&mut out, ']');
    assert(tokens@.subrange(0, tokens.len() as int) =~= tokens@);
    assert(out@ =~= tokens_json(models(tokens@)));
    out.as_str().as_bytes_vec()
}

} // verus!
