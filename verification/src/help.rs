//! The help topics.
use crate::text::{chars_of, push_text, same_text};
use vstd::prelude::*;

verus! {

/// The topics and their texts.
pub open spec fn topic_list() -> Seq<(Seq<char>, Seq<char>)> {
    seq![
        (
            "programa"@,
            "f2png converte ficheiros em dados escondidos numa imagem PNG via LSB. Pode cifrar o payload com Argon2id + ChaCha20-Poly1305 e suporta multi-ficheiro."@,
        ),
        (
            "lsb"@,
            "LSB usa bits menos significativos dos canais R,G,B para escrever dados. Mais bits por canal = mais capacidade, mais ruído."@,
        ),
        (
            "bpc"@,
            "Bits por canal (1..=4). 1-2 quase invisível; 3-4 aumenta capacidade mas pode gerar artefactos visuais."@,
        ),
        (
            "upscale"@,
            "Upscale automático aumenta a resolução da imagem de cobertura para caber o payload mantendo proporção."@,
        ),
        (
            "crypto"@,
            "Quando defines password, usa Argon2id para derivar chave (memória-hard) e ChaCha20-Poly1305 para AEAD."@,
        ),
        (
            "multi"@,
            "Multi-ficheiro empacota vários ficheiros com nome, tamanho e SHA individuais. No reveal, extrai tudo para um diretório."@,
        ),
        (
            "swap-cover"@,
            "swap-cover extrai o payload de uma imagem stego e re-embed em outra capa sem precisar dos ficheiros originais."@,
        ),
        (
            "boas-praticas"@,
            "Usa PNG ou formato sem compressão destrutiva; evita reencode para JPEG; guarda o BPC usado; usa password para dados sensíveis."@,
        ),
    ]
}

/// The topics and their texts.
pub fn topics() -> (out: Vec<(&'static str, &'static str)>)
    ensures
        out@.len() == topic_list().len(),
        forall|i: int|
            #![trigger out@[i]]
            0 <= i < out@.len() ==> (out@[i].0@, out@[i].1@) == topic_list()[i],
{
    let mut out: Vec<(&'static str, &'static str)> = Vec::new();
    out.push(
        (
            "programa",
            "f2png converte ficheiros em dados escondidos numa imagem PNG via LSB. Pode cifrar o payload com Argon2id + ChaCha20-Poly1305 e suporta multi-ficheiro.",
        ),
    );
    out.push(
        (
            "lsb",
            "LSB usa bits menos significativos dos canais R,G,B para escrever dados. Mais bits por canal = mais capacidade, mais ruído.",
        ),
    );
    out.push(
        (
            "bpc",
            "Bits por canal (1..=4). 1-2 quase invisível; 3-4 aumenta capacidade mas pode gerar artefactos visuais.",
        ),
    );
    out.push(
        (
            "upscale",
            "Upscale automático aumenta a resolução da imagem de cobertura para caber o payload mantendo proporção.",
        ),
    );
    out.push(
        (
            "crypto",
            "Quando defines password, usa Argon2id para derivar chave (memória-hard) e ChaCha20-Poly1305 para AEAD.",
        ),
    );
    out.push(
        (
            "multi",
            "Multi-ficheiro empacota vários ficheiros com nome, tamanho e SHA individuais. No reveal, extrai tudo para um diretório.",
        ),
    );
    out.push(
        (
            "swap-cover",
            "swap-cover extrai o payload de uma imagem stego e re-embed em outra capa sem precisar dos ficheiros originais.",
        ),
    );
    out.push(
        (
            "boas-praticas",
            "Usa PNG ou formato sem compressão destrutiva; evita reencode para JPEG; guarda o BPC usado; usa password para dados sensíveis.",
        ),
    );
    out
}

/// The position of a topic among the first `k`, if it is one of them.
pub open spec fn topic_at(key: Seq<char>, k: int) -> Option<int>
    decreases k,
{
    if k <= 0 {
        None
    } else if topic_list()[k - 1].0 == key {
        Some(k - 1)
    } else {
        topic_at(key, k - 1)
    }
}

/// The names of the first `k` topics, one to a line.
pub open spec fn topic_lines(k: int) -> Seq<char>
    decreases k,
{
    if k <= 0 {
        Seq::empty()
    } else {
        topic_lines(k - 1) + " - "@ + topic_list()[k - 1].0 + "\n"@
    }
}

/// The help on a topic, or on what topics there are; without a topic of that name,
/// the message that says so.
pub open spec fn topic_text(topic: Option<Seq<char>>) -> Result<Seq<char>, Seq<char>> {
    let n = topic_list().len() as int;
    match topic {
        None => Ok(
            "Tópicos disponíveis:\n"@ + topic_lines(n) + "\nUsa: f2png help <tópico>\n"@,
        ),
        Some(key) => match topic_at(key, n) {
            Some(i) => Ok("["@ + key + "]\n"@ + topic_list()[i].1 + "\n"@),
            None => Err("Tópico '"@ + key + "' não encontrado.\n"@),
        },
    }
}

/// The help on a topic, or on what topics there are; without a topic of that name,
/// the message that says so.
pub fn print_topic(topic: Option<&str>) -> (out: Result<String, String>)
    ensures
        match out {
            Ok(text) => topic_text(crate::crypto::text_of(topic)) == Ok::<Seq<char>, Seq<char>>(
                text@,
            ),
            Err(text) => topic_text(crate::crypto::text_of(topic)) == Err::<Seq<char>, Seq<char>>(
                text@,
            ),
        },
{
    let list: Vec<(&'static str, &'static str)> = topics();
    let total: usize = list.len();
    let mut out: String = String::new();
    match topic {
        None => {
            push_text(&mut out, "Tópicos disponíveis:\n");
            let mut k: usize = 0;
            assert(out@ =~= "Tópicos disponíveis:\n"@ + topic_lines(0));
            while k < total
                invariant
                    k <= total == list@.len() == topic_list().len(),
                    out@ == "Tópicos disponíveis:\n"@ + topic_lines(k as int),
                    forall|i: int|
                        #![trigger list@[i]]
                        0 <= i < list@.len() ==> (list@[i].0@, list@[i].1@) == topic_list()[i],
                decreases total - k,
            {
                push_text(&mut out, " - ");
                push_text(&mut out, list[k].0);
                push_text(&mut out, "\n");
                k = k + 1;
                assert(out@ =~= "Tópicos disponíveis:\n"@ + topic_lines(k as int));
            }
            push_text(&mut out, "\nUsa: f2png help <tópico>\n");
            Ok(out)
        },
        Some(key) => {
            let wanted: Vec<char> = chars_of(key);
            let mut k: usize = total;
            while k > 0
                invariant
                    k <= total == list@.len() == topic_list().len(),
                    out@ == Seq::<char>::empty(),
                    wanted@ == key@,
                    topic_at(key@, total as int) == topic_at(key@, k as int),
                    forall|i: int|
                        #![trigger list@[i]]
                        0 <= i < list@.len() ==> (list@[i].0@, list@[i].1@) == topic_list()[i],
                    topic == Some(key),
                decreases k,
            {
                if same_text(chars_of(list[k - 1].0).as_slice(), wanted.as_slice()) {
                    push_text(&mut out, "[");
                    push_text(&mut out, key);
                    push_text(&mut out, "]\n");
                    push_text(&mut out, list[k - 1].1);
                    push_text(&mut out, "\n");
                    assert(out@ =~= "["@ + key@ + "]\n"@ + topic_list()[k - 1].1 + "\n"@);
                    return Ok(out);
                }
                k = k - 1;
            }
            push_text(&mut out, "Tópico '");
            push_text(&mut out, key);
            push_text(&mut out, "' não encontrado.\n");
            assert(out@ =~= "Tópico '"@ + key@ + "' não encontrado.\n"@);
            Err(out)
        },
    }
}

/// There is help on each topic of the list, and on no other: the topic in brackets, and
/// its text. Without a topic, all are listed.
pub proof fn law_help_on_topics(i: int, key: Seq<char>)
    requires
        0 <= i < topic_list().len(),
    ensures
        topic_list().len() == 8,
        topic_text(Some(topic_list()[i].0)) == Ok::<Seq<char>, Seq<char>>(
            "["@ + topic_list()[i].0 + "]\n"@ + topic_list()[i].1 + "\n"@,
        ),
        (forall|j: int| 0 <= j < 8 ==> (#[trigger] topic_list()[j]).0 != key) ==> topic_text(
            Some(key),
        ) == Err::<Seq<char>, Seq<char>>("Tópico '"@ + key + "' não encontrado.\n"@),
        topic_text(None) == Ok::<Seq<char>, Seq<char>>(
            "Tópicos disponíveis:\n"@ + topic_lines(8) + "\nUsa: f2png help <tópico>\n"@,
        ),
        topic_lines(i + 1) == topic_lines(i) + " - "@ + topic_list()[i].0 + "\n"@,
{
    lemma_topics_differ();
    lemma_topic_is_found(i, 8);
    if forall|j: int| 0 <= j < 8 ==> (#[trigger] topic_list()[j]).0 != key {
        lemma_no_topic(key, 8);
    }
}

/// The topics have different names.
proof fn lemma_topics_differ()
    ensures
        topic_list().len() == 8,
        topic_list()[0].0 == "programa"@,
        topic_list()[1].0 == "lsb"@,
        topic_list()[2].0 == "bpc"@,
        topic_list()[3].0 == "upscale"@,
        topic_list()[4].0 == "crypto"@,
        topic_list()[5].0 == "multi"@,
        topic_list()[6].0 == "swap-cover"@,
        topic_list()[7].0 == "boas-praticas"@,
        forall|i: int, j: int|
            0 <= i < j < 8 ==> (#[trigger] topic_list()[i]).0 != (#[trigger] topic_list()[j]).0,
{
    reveal_strlit("programa");
    reveal_strlit("lsb");
    reveal_strlit("bpc");
    reveal_strlit("upscale");
    reveal_strlit("crypto");
    reveal_strlit("multi");
    reveal_strlit("swap-cover");
    reveal_strlit("boas-praticas");
    assert forall|i: int, j: int| 0 <= i < j < 8 implies (#[trigger] topic_list()[i]).0 != (
    #[trigger] topic_list()[j]).0 by {
        let (a, b) = (topic_list()[i].0, topic_list()[j].0);
        assert(a.len() != b.len() || a[0] != b[0]);
    }
}

/// A topic of the list is found.
proof fn lemma_topic_is_found(i: int, k: int)
    requires
        0 <= i < k <= 8,
    ensures
        topic_at(topic_list()[i].0, k) == Some(i),
    decreases k,
{
    lemma_topics_differ();
    if i < k - 1 {
        assert(topic_list()[i].0 != topic_list()[k - 1].0);
        lemma_topic_is_found(i, k - 1);
    }
}

/// Another topic is not found.
proof fn lemma_no_topic(key: Seq<char>, k: int)
    requires
        0 <= k <= 8,
        forall|j: int| 0 <= j < 8 ==> (#[trigger] topic_list()[j]).0 != key,
    ensures
        topic_at(key, k) is None,
    decreases k,
{
    if k > 0 {
        assert(topic_list()[k - 1].0 != key);
        lemma_no_topic(key, k - 1);
    }
}

/// The topics that there is help on, and what it says.
pub proof fn law_topics()
    ensures
        topic_list().len() == 8,
        topic_list()[0].0 == "programa"@,
        topic_list()[1].0 == "lsb"@,
        topic_list()[2].0 == "bpc"@,
        topic_list()[3].0 == "upscale"@,
        topic_list()[4].0 == "crypto"@,
        topic_list()[5].0 == "multi"@,
        topic_list()[6].0 == "swap-cover"@,
        topic_list()[7].0 == "boas-praticas"@,
        topic_list()[0].1 == "f2png converte ficheiros em dados escondidos numa imagem PNG via LSB. Pode cifrar o payload com Argon2id + ChaCha20-Poly1305 e suporta multi-ficheiro."@,
        topic_list()[1].1 == "LSB usa bits menos significativos dos canais R,G,B para escrever dados. Mais bits por canal = mais capacidade, mais ruído."@,
        topic_list()[2].1 == "Bits por canal (1..=4). 1-2 quase invisível; 3-4 aumenta capacidade mas pode gerar artefactos visuais."@,
        topic_list()[3].1 == "Upscale automático aumenta a resolução da imagem de cobertura para caber o payload mantendo proporção."@,
        topic_list()[4].1 == "Quando defines password, usa Argon2id para derivar chave (memória-hard) e ChaCha20-Poly1305 para AEAD."@,
        topic_list()[5].1 == "Multi-ficheiro empacota vários ficheiros com nome, tamanho e SHA individuais. No reveal, extrai tudo para um diretório."@,
        topic_list()[6].1 == "swap-cover extrai o payload de uma imagem stego e re-embed em outra capa sem precisar dos ficheiros originais."@,
        topic_list()[7].1 == "Usa PNG ou formato sem compressão destrutiva; evita reencode para JPEG; guarda o BPC usado; usa password para dados sensíveis."@,
{
    lemma_topics_differ();
}

} // verus!
