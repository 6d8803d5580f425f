//! The kinds of metrics the backend serves, their column labels, and the
//! addresses and cookie names built from them.
use vstd::prelude::*;

verus! {

/// The kind of model whose metrics are shown.
#[derive(Debug, Clone, Copy, PartialEq, Eq, Structural)]
pub enum MetricType {
    LLM,
    CV,
}

/// The address of the backend.
pub const BACKEND_ADDRESS: &'static str = "https://oheaven.ru";

/// The name of a metric type, as it is shown and sent (`Display`).
pub open spec fn metric_name(t: MetricType) -> Seq<char> {
    match t {
        MetricType::LLM => "LLM"@,
        MetricType::CV => "CV"@,
    }
}

/// The lowercase name of a metric type, as the backend's `request_type`.
pub open spec fn request_name(t: MetricType) -> Seq<char> {
    match t {
        MetricType::LLM => "llm"@,
        MetricType::CV => "cv"@,
    }
}

/// The column labels of the metrics of each type, in table order.
pub open spec fn labels_of(t: MetricType) -> Seq<Seq<char>> {
    match t {
        MetricType::LLM => seq![
            "Средняя задержка"@,
            "Точность ответа"@,
            "Логичность и структура"@,
            "Глубина и полнота ответа"@,
            "Гибкость в интерпретации"@,
            "Адекватность формата"@,
            "Чувствительность к контексту"@,
            "Креативность"@,
            "Адаптивность к стилю общения"@,
            "Обработка сложных запросов"@,
            "Восприятие неоднозначности"@,
            "Оценка релевантности источников"@,
            "Эффективность исправления ошибок"@,
            "Понимание технической специфики"@,
            "Устойчивость к когнитивной нагрузке"@,
            "Интерактивность"@,
            "Умение работать с неоднозначными терминами"@,
            "Анализ и синтез информации"@,
            "Четкость и краткость"@,
            "Поддержка мультимодальных запросов"@,
            "Корректность грамматики и стиля"@,
            "Способность к самообучению"@,
            "Этика и корректность"@,
            "Поддержка многозадачности"@,
            "Понимание культурных различий"@,
            "Прогнозирование и предвосхищение"@,
            "Работа с ограниченными данными"@,
            "Адаптация к изменениям в диалоге"@,
            "Размер и сложность генерируемого текста"@,
            "Обратная связь"@,
        ],
        MetricType::CV => seq![
            "Точность на цели"@,
            "Точность на неизвестных"@,
            "Устойчивость к дождю"@,
            "Устойчивость к разрешению"@,
            "Скорость инференса"@,
        ],
    }
}

impl MetricType {
    /// Every metric type, in the order of the selector.
    pub const ALL: [MetricType; 2] = [MetricType::LLM, MetricType::CV];

    /// The metric type named by `string`; only the two names are accepted.
    pub fn from_str(string: &str) -> (t: MetricType)
        requires
            string@ == "LLM"@ || string@ == "CV"@,
        ensures
            metric_name(t) == string@,
    {
        proof {
            reveal_strlit("LLM");
            reveal_strlit("CV");
        }
        let s = String::from_str(string);
        if s == String::from_str("LLM") {
            MetricType::LLM
        } else {
            MetricType::CV
        }
    }

    /// The column labels of this type's metrics, in table order.
    pub fn metric_labels(&self) -> (r: &'static [&'static str])
        ensures
            r@.len() == labels_of(*self).len(),
            forall|i: int| 0 <= i < r@.len() ==> (#[trigger] r@[i])@ == labels_of(*self)[i],
    {
        match self {
            MetricType::LLM => &[
                "Средняя задержка",
                "Точность ответа",
                "Логичность и структура",
                "Глубина и полнота ответа",
                "Гибкость в интерпретации",
                "Адекватность формата",
                "Чувствительность к контексту",
                "Креативность",
                "Адаптивность к стилю общения",
                "Обработка сложных запросов",
                "Восприятие неоднозначности",
                "Оценка релевантности источников",
                "Эффективность исправления ошибок",
                "Понимание технической специфики",
                "Устойчивость к когнитивной нагрузке",
                "Интерактивность",
                "Умение работать с неоднозначными терминами",
                "Анализ и синтез информации",
                "Четкость и краткость",
                "Поддержка мультимодальных запросов",
                "Корректность грамматики и стиля",
                "Способность к самообучению",
                "Этика и корректность",
                "Поддержка многозадачности",
                "Понимание культурных различий",
                "Прогнозирование и предвосхищение",
                "Работа с ограниченными данными",
                "Адаптация к изменениям в диалоге",
                "Размер и сложность генерируемого текста",
                "Обратная связь",
            ],
            MetricType::CV => &[
                "Точность на цели",
                "Точность на неизвестных",
                "Устойчивость к дождю",
                "Устойчивость к разрешению",
                "Скорость инференса",
            ],
        }
    }

    /// The lowercase name of the metric type, as the backend expects it.
    pub fn request_type(&self) -> (s: String)
        ensures
            s@ == request_name(*self),
    {
        match self {
            MetricType::LLM => String::from_str("llm"),
            MetricType::CV => String::from_str("cv"),
        }
    }

    /// The name of the metric type (its `Display` form).
    pub fn to_string(&self) -> (s: String)
        ensures
            s@ == metric_name(*self),
    {
        match self {
            MetricType::LLM => String::from_str("LLM"),
            MetricType::CV => String::from_str("CV"),
        }
    }
}

/// The address the metrics table of a type is fetched from.
pub open spec fn metrics_url_of(t: MetricType) -> Seq<char> {
    BACKEND_ADDRESS@ + "/metrics?request_type="@ + request_name(t)
}

/// The address of one chat turn: whether the table is shared, the metric
/// type, and the session once the backend has given a nonempty one.
pub open spec fn chat_url_of(embed: bool, t: MetricType, session: Option<Seq<char>>) -> Seq<char> {
    let base = BACKEND_ADDRESS@ + "/chat?is_embed="@ + (if embed {
        "true"@
    } else {
        "false"@
    }) + "&request_type="@ + request_name(t);
    match session {
        Some(sid) => if sid.len() > 0 {
            base + "&session_id="@ + sid
        } else {
            base
        },
        None => base,
    }
}

/// The name of the cookie that keeps the user's own rows of a type
/// (`format!("user_models_{:?}", t)`).
pub open spec fn cookie_name_of(t: MetricType) -> Seq<char> {
    "user_models_"@ + metric_name(t)
}

/// The address the metrics table of a type is fetched from.
pub fn metrics_url(t: MetricType) -> (r: String)
    ensures
        r@ == metrics_url_of(t),
{
    let mut r = String::from_str(BACKEND_ADDRESS);
    r.append("/metrics?request_type=");
    let rt = t.request_type();
    r.append(rt.as_str());
    r
}

/// The address of one chat turn.
pub fn chat_url(embed: bool, t: MetricType, session_id: &Option<String>) -> (r: String)
    ensures
        r@ == chat_url_of(
            embed,
            t,
            match session_id {
                Some(s) => Some(s@),
                None => None,
            },
        ),
{
    let mut r = String::from_str(BACKEND_ADDRESS);
    r.append("/chat?is_embed=");
    if embed {
        r.append("true");
    } else {
        r.append("false");
    }
    r.append("&request_type=");
    let rt = t.request_type();
    r.append(rt.as_str());
    match session_id {
        Some(sid) => {
            if sid.as_str().unicode_len() > 0 {
                r.append("&session_id=");
                r.append(sid.as_str());
            }
        },
        None => {},
    }
    r
}

/// The name of the cookie that keeps the user's own rows of a type.
pub fn cookie_name(t: MetricType) -> (r: String)
    ensures
        r@ == cookie_name_of(t),
{
    let mut r = String::from_str("user_models_");
    let name = t.to_string();
    r.append(name.as_str());
    r
}

/// Every metric type's name is one that `MetricType::from_str` accepts, and
/// distinct types have distinct names; so reading back the name of a type
/// gives the same type.
pub proof fn lemma_name_round_trip(t: MetricType, u: MetricType)
    ensures
        metric_name(t) == "LLM"@ || metric_name(t) == "CV"@,
        metric_name(t) == metric_name(u) ==> t == u,
{
    reveal_strlit("LLM");
    reveal_strlit("CV");
    if t != u {
        assert(metric_name(t).len() != metric_name(u).len());
    }
}

} // verus!
