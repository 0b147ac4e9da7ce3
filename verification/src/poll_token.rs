//! The vote-token codec: a candidate number is sealed into an opaque,
//! tamper-evident token by authenticated encryption, under a key formed
//! from two halves — a poll-wide secret and a per-session secret, each
//! handed around as a 32-digit hexadecimal string of 16 bytes. Decoding
//! requires both halves; a wrong or stale session secret, a token from
//! another poll, or a corrupted token is refused.
//!
//! The cipher is modelled symbolically: `aead_seal` names the ciphertext
//! the AEAD produces for a key, nonce and plaintext, and the trusted
//! wrappers below state that decryption succeeds exactly on sealings
//! made under the same key and nonce. The nonce is derived once from a
//! short configured seed and reused across the tokens of a poll; the
//! scheme tolerates this only because the AEAD mode is misuse-resistant.

use aes_gcm_siv::aead::Aead;
use aes_gcm_siv::KeyInit;
use vstd::prelude::*;

use crate::digits::{
    dec_digits, format_dec, lemma_dec_digits_facts, lemma_dec_digits_len, lemma_dec_val_nonneg,
    parse_dec, parse_vote,
};
use crate::entropy::random_bytes;
use crate::hexstr::{hex_decode, hex_encode, hex_of, lemma_unhex_hex_of, lemma_unhex_len, unhex};

verus! {

/// Raw length of each key half, in bytes.
pub const KEY_HALF_LEN: usize = 16;

/// The length the cipher requires of a nonce.
pub const NONCE_LEN: usize = 12;

/// Longest plaintext the codec ever seals; candidate numbers in decimal
/// notation stay far below it.
pub const MAX_PLAIN_LEN: usize = 64;

/// The ciphertext of the AEAD for a given key, nonce and plaintext.
pub uninterp spec fn aead_seal(key: Seq<u8>, nonce: Seq<u8>, plain: Seq<u8>) -> Seq<u8>;

/// A valid key half on the wire: a hexadecimal string denoting exactly
/// 16 bytes.
pub open spec fn valid_key_hex(s: Seq<char>) -> bool {
    unhex(s) is Some && unhex(s).unwrap().len() == KEY_HALF_LEN
}

/// The raw bytes a key-half string denotes.
pub open spec fn key_bytes_of(s: Seq<char>) -> Seq<u8> {
    unhex(s).unwrap()
}

/// A usable nonce seed: a short ASCII string, padded below.
pub open spec fn valid_seed(seed: Seq<char>) -> bool {
    seed.len() <= NONCE_LEN && vstd::utf8::is_ascii_chars(seed)
}

/// The fixed nonce a seed determines: its bytes, zero-padded on the
/// right to the required length.
pub open spec fn nonce_of(seed: Seq<char>) -> Seq<u8> {
    Seq::new(NONCE_LEN as nat, |i: int| if i < seed.len() { seed[i] as u8 } else { 0 })
}

/// The token string that sealing candidate number `num` under the two
/// raw key halves and the seed produces: the hexadecimal form of the
/// ciphertext of the decimal notation of `num`.
pub open spec fn spec_encode(num: int, pb: Seq<u8>, sb: Seq<u8>, seed: Seq<char>) -> Seq<char> {
    hex_of(aead_seal(pb + sb, nonce_of(seed), dec_digits(num)))
}

/// The token denotes a ciphertext sealed under these key halves and
/// this seed, whose plaintext is the decimal notation of `i`.
pub open spec fn decodes_to(
    token: Seq<char>,
    pb: Seq<u8>,
    sb: Seq<u8>,
    seed: Seq<char>,
    i: i64,
) -> bool {
    exists|p: Seq<u8>|
        p.len() <= MAX_PLAIN_LEN && unhex(token) == Some(
            #[trigger] aead_seal(pb + sb, nonce_of(seed), p),
        ) && parse_vote(p) == Some(i)
}

/// Relies on `aes_gcm_siv::Aes256GcmSiv` through `aead::Aead::encrypt`
/// (RFC 8452): sealing is a deterministic function of key, nonce and
/// plaintext, it appends a 16-byte tag, and it cannot fail for
/// plaintexts this short.
#[verifier::external_body]
fn aead_encrypt(key: &Vec<u8>, nonce: &Vec<u8>, plain: &Vec<u8>) -> (r: Vec<u8>)
    requires
        key@.len() == 2 * KEY_HALF_LEN,
        nonce@.len() == NONCE_LEN,
        plain@.len() <= MAX_PLAIN_LEN,
    ensures
        r@ == aead_seal(key@, nonce@, plain@),
        r@.len() == plain@.len() + 16,
{
    let cipher = aes_gcm_siv::Aes256GcmSiv::new_from_slice(key.as_slice()).unwrap();
    let nonce_arr = aes_gcm_siv::Nonce::try_from(nonce.as_slice()).unwrap();
    cipher.encrypt(&nonce_arr, plain.as_slice()).unwrap()
}

/// Relies on `aes_gcm_siv::Aes256GcmSiv` through `aead::Aead::decrypt`
/// (RFC 8452), read as authenticated encryption: decryption under a key
/// and nonce succeeds exactly on the sealings made under that key and
/// nonce, and returns the sealed plaintext; under any other key, or on
/// an altered ciphertext, it is refused. The clause quantifying over
/// other keys is the authenticity guarantee of the AEAD taken as the
/// model of the cipher: forging a ciphertext that this key accepts,
/// or one that two keys accept, is assumed out of reach.
#[verifier::external_body]
fn aead_open(key: &Vec<u8>, nonce: &Vec<u8>, cipher_text: &Vec<u8>) -> (r: Option<Vec<u8>>)
    requires
        key@.len() == 2 * KEY_HALF_LEN,
        nonce@.len() == NONCE_LEN,
    ensures
        match r {
            Some(p) => cipher_text@ == aead_seal(key@, nonce@, p@) && forall|
                k2: Seq<u8>,
                p2: Seq<u8>,
            |
                k2.len() == 2 * KEY_HALF_LEN && p2.len() <= MAX_PLAIN_LEN && cipher_text@
                    == #[trigger] aead_seal(k2, nonce@, p2) ==> k2 == key@ && p2 == p@,
            None => forall|p: Seq<u8>|
                p.len() <= MAX_PLAIN_LEN ==> cipher_text@ != #[trigger] aead_seal(
                    key@,
                    nonce@,
                    p,
                ),
        },
{
    let cipher = aes_gcm_siv::Aes256GcmSiv::new_from_slice(key.as_slice()).unwrap();
    let nonce_arr = aes_gcm_siv::Nonce::try_from(nonce.as_slice()).unwrap();
    match cipher.decrypt(&nonce_arr, cipher_text.as_slice()) {
        Ok(p) => Some(p),
        Err(_) => None,
    }
}

/// The configured seed, as the nonce the cipher is given.
fn make_nonce(seed: &str) -> (r: Vec<u8>)
    requires
        valid_seed(seed@),
    ensures
        r@ == nonce_of(seed@),
{
    let mut bytes = seed.as_bytes_vec();
    proof {
        assert(vstd::string::is_ascii(seed));
        vstd::string::is_ascii_spec_bytes(seed);
    }
    assert(bytes@ =~= Seq::new(seed@.len(), |i: int| seed@.index(i) as u8));
    while bytes.len() < NONCE_LEN
        invariant
            seed@.len() <= bytes@.len() <= NONCE_LEN,
            forall|k: int| 0 <= k < seed@.len() ==> bytes@[k] == seed@[k] as u8,
            forall|k: int| seed@.len() <= k < bytes@.len() ==> bytes@[k] == 0,
        decreases NONCE_LEN - bytes@.len(),
    {
        bytes.push(0);
    }
    proof {
        assert(bytes@ =~= nonce_of(seed@));
    }
    bytes
}

/// A fresh secret key half: 16 random bytes, in hexadecimal form.
pub fn fresh_secret_hex() -> (s: String)
    ensures
        valid_key_hex(s@),
{
    let raw = random_bytes(KEY_HALF_LEN);
    let s = hex_encode(raw.as_slice());
    proof {
        lemma_unhex_hex_of(raw@);
    }
    s
}

/// A vote token: the sealed ciphertext (in hexadecimal), the voter who
/// owns it, and the interaction that produced it. The two ghost fields
/// record what was sealed — the chosen candidate number and the raw
/// session key half — which the ciphertext hides from everyone else.
/// A token restored from storage carries `restored == true`: nothing is
/// known of what it seals until a click decodes it, so the ledger
/// accounts for its vote through the carried tallies instead of the
/// ghost record.
pub struct PollToken {
    pub token: String,
    pub user_id: i64,
    pub msg_id: i64,
    pub restored: bool,
    pub choice: Ghost<i64>,
    pub session: Ghost<Seq<u8>>,
}

impl PollToken {
    /// Seals candidate number `num` into a fresh token owned by
    /// `user_id`, under the poll key half `pub_key` and the session key
    /// half `priv_key`.
    pub fn new(
        nonce_str: String,
        pub_key: String,
        priv_key: String,
        num: i64,
        user_id: i64,
        msg_id: i64,
    ) -> (r: PollToken)
        requires
            valid_seed(nonce_str@),
            valid_key_hex(pub_key@),
            valid_key_hex(priv_key@),
            num >= 0,
        ensures
            r.token@ == spec_encode(
                num as int,
                key_bytes_of(pub_key@),
                key_bytes_of(priv_key@),
                nonce_str@,
            ),
            r.user_id == user_id,
            r.msg_id == msg_id,
            !r.restored,
            r.choice@ == num,
            r.session@ == key_bytes_of(priv_key@),
    {
        let mut key = hex_decode(pub_key.as_str()).unwrap();
        let mut priv_bytes = hex_decode(priv_key.as_str()).unwrap();
        let ghost sbv = priv_bytes@;
        key.append(&mut priv_bytes);
        let nonce = make_nonce(nonce_str.as_str());
        let plain = format_dec(num);
        proof {
            lemma_dec_digits_len(num as int);
        }
        let cipher_text = aead_encrypt(&key, &nonce, &plain);
        let token = hex_encode(cipher_text.as_slice());
        PollToken {
            token,
            user_id,
            msg_id,
            restored: false,
            choice: Ghost(num),
            session: Ghost(sbv),
        }
    }

    /// A token as it stands in storage: only the ciphertext and its
    /// owner are known; nothing is assumed about what it seals.
    pub fn from_stored(token: String, user_id: i64, msg_id: i64) -> (r: PollToken)
        ensures
            r.token == token,
            r.user_id == user_id,
            r.msg_id == msg_id,
            r.restored,
    {
        PollToken {
            token,
            user_id,
            msg_id,
            restored: true,
            choice: Ghost(0),
            session: Ghost(Seq::empty()),
        }
    }

    /// Recovers the candidate number sealed in this token, given the
    /// same nonce seed, the poll key half, and the session key half the
    /// token was sealed under. Fails — an expected, non-fatal outcome —
    /// when the session half does not denote 16 bytes, when the token
    /// was sealed under any other pair of key halves or is corrupted,
    /// or when the sealed plaintext is not a decimal number.
    ///
    /// The clauses below pin the result down: decoding a token sealed
    /// under these very key halves returns the sealed number, and a
    /// successful decode certifies that no other key halves (and no
    /// other number) could have produced this token.
    pub fn decrypt(&self, nonce_str: String, pub_key: String, priv_key: String) -> (r: Result<
        i64,
        (),
    >)
        requires
            valid_seed(nonce_str@),
            valid_key_hex(pub_key@),
        ensures
            match r {
                Ok(i) => {
                    &&& i >= 0
                    &&& valid_key_hex(priv_key@)
                    &&& decodes_to(
                        self.token@,
                        key_bytes_of(pub_key@),
                        key_bytes_of(priv_key@),
                        nonce_str@,
                        i,
                    )
                    &&& forall|j: int, pb2: Seq<u8>, sb2: Seq<u8>|
                        pb2.len() == KEY_HALF_LEN && sb2.len() == KEY_HALF_LEN && 0 <= j
                            <= i64::MAX && self.token@ == #[trigger] spec_encode(
                            j,
                            pb2,
                            sb2,
                            nonce_str@,
                        ) ==> j == i as int && pb2 == key_bytes_of(pub_key@) && sb2
                            == key_bytes_of(priv_key@)
                    &&& forall|k2: Seq<u8>, p2: Seq<u8>|
                        k2.len() == 2 * KEY_HALF_LEN && p2.len() <= MAX_PLAIN_LEN && unhex(
                            self.token@,
                        ) == Some(#[trigger] aead_seal(k2, nonce_of(nonce_str@), p2)) ==> k2
                            == key_bytes_of(pub_key@) + key_bytes_of(priv_key@) && parse_vote(p2)
                            == Some(i)
                },
                Err(_) => forall|i: i64|
                    !(valid_key_hex(priv_key@) && #[trigger] decodes_to(
                        self.token@,
                        key_bytes_of(pub_key@),
                        key_bytes_of(priv_key@),
                        nonce_str@,
                        i,
                    )),
            },
            forall|j: int|
                0 <= j <= i64::MAX && valid_key_hex(priv_key@) && self.token@
                    == #[trigger] spec_encode(
                    j,
                    key_bytes_of(pub_key@),
                    key_bytes_of(priv_key@),
                    nonce_str@,
                ) ==> r == Ok::<i64, ()>(j as i64),
    {
        let pub_bytes = hex_decode(pub_key.as_str()).unwrap();
        let priv_opt = hex_decode(priv_key.as_str());
        proof {
            if unhex(priv_key@) is Some {
                lemma_unhex_len(priv_key@);
            }
        }
        let mut priv_bytes = match priv_opt {
            Some(b) => b,
            None => {
                return Err(());
            },
        };
        if priv_bytes.len() != KEY_HALF_LEN {
            return Err(());
        }
        assert(valid_key_hex(priv_key@));
        let ghost pbv = pub_bytes@;
        let ghost sbv = priv_bytes@;
        let mut key = pub_bytes;
        key.append(&mut priv_bytes);
        let nonce = make_nonce(nonce_str.as_str());
        let cipher_text = match hex_decode(self.token.as_str()) {
            Some(c) => c,
            None => {
                proof {
                    lemma_no_decode_without_unhex(
                        self.token@,
                        pbv,
                        sbv,
                        nonce_str@,
                    );
                }
                return Err(());
            },
        };
        let plain = match aead_open(&key, &nonce, &cipher_text) {
            Some(p) => p,
            None => {
                proof {
                    assert forall|i: i64|
                        !(valid_key_hex(priv_key@) && #[trigger] decodes_to(
                            self.token@,
                            pbv,
                            sbv,
                            nonce_str@,
                            i,
                        )) by {
                        if decodes_to(self.token@, pbv, sbv, nonce_str@, i) {
                            let p = choose|p: Seq<u8>|
                                p.len() <= MAX_PLAIN_LEN && unhex(self.token@) == Some(
                                    #[trigger] aead_seal(pbv + sbv, nonce_of(nonce_str@), p),
                                ) && parse_vote(p) == Some(i);
                            assert(cipher_text@ == aead_seal(pbv + sbv, nonce_of(nonce_str@), p));
                        }
                    }
                    assert forall|j: int| 0 <= j <= i64::MAX implies cipher_text@ != aead_seal(
                        pbv + sbv,
                        nonce_of(nonce_str@),
                        dec_digits(j),
                    ) by {
                        lemma_dec_digits_len(j);
                    }
                    lemma_spec_encode_unhex(self.token@, pbv, sbv, nonce_str@, cipher_text@);
                }
                return Err(());
            },
        };
        if plain.len() > MAX_PLAIN_LEN {
            proof {
                assert forall|i: i64|
                    !(valid_key_hex(priv_key@) && #[trigger] decodes_to(
                        self.token@,
                        pbv,
                        sbv,
                        nonce_str@,
                        i,
                    )) by {
                    if decodes_to(self.token@, pbv, sbv, nonce_str@, i) {
                        let p = choose|p: Seq<u8>|
                            p.len() <= MAX_PLAIN_LEN && unhex(self.token@) == Some(
                                #[trigger] aead_seal(pbv + sbv, nonce_of(nonce_str@), p),
                            ) && parse_vote(p) == Some(i);
                        assert(cipher_text@ == aead_seal(pbv + sbv, nonce_of(nonce_str@), p));
                        assert(p == plain@);
                    }
                }
                assert forall|j: int| 0 <= j <= i64::MAX implies cipher_text@ != aead_seal(
                    pbv + sbv,
                    nonce_of(nonce_str@),
                    dec_digits(j),
                ) by {
                    lemma_dec_digits_len(j);
                }
                lemma_spec_encode_unhex(self.token@, pbv, sbv, nonce_str@, cipher_text@);
            }
            return Err(());
        }
        match parse_dec(plain.as_slice()) {
            Some(v) => {
                proof {
                    lemma_dec_val_nonneg(plain@);
                    assert(decodes_to(self.token@, pbv, sbv, nonce_str@, v));
                    assert forall|k2: Seq<u8>, p2: Seq<u8>|
                        k2.len() == 2 * KEY_HALF_LEN && p2.len() <= MAX_PLAIN_LEN && unhex(
                            self.token@,
                        ) == Some(#[trigger] aead_seal(k2, nonce_of(nonce_str@), p2)) implies k2
                        == pbv + sbv && parse_vote(p2) == Some(v) by {
                        assert(cipher_text@ == aead_seal(k2, nonce_of(nonce_str@), p2));
                    }
                    assert forall|j: int, pb2: Seq<u8>, sb2: Seq<u8>|
                        pb2.len() == KEY_HALF_LEN && sb2.len() == KEY_HALF_LEN && 0 <= j
                            <= i64::MAX && self.token@ == #[trigger] spec_encode(
                            j,
                            pb2,
                            sb2,
                            nonce_str@,
                        ) implies j == v as int && pb2 == pbv && sb2 == sbv by {
                        lemma_match_pins_keys(
                            self.token@,
                            j,
                            pb2,
                            sb2,
                            nonce_str@,
                            cipher_text@,
                            pbv,
                            sbv,
                            plain@,
                        );
                    }
                }
                Ok(v)
            },
            None => {
                proof {
                    assert forall|i: i64|
                        !(valid_key_hex(priv_key@) && #[trigger] decodes_to(
                            self.token@,
                            pbv,
                            sbv,
                            nonce_str@,
                            i,
                        )) by {
                        if decodes_to(self.token@, pbv, sbv, nonce_str@, i) {
                            let p = choose|p: Seq<u8>|
                                p.len() <= MAX_PLAIN_LEN && unhex(self.token@) == Some(
                                    #[trigger] aead_seal(pbv + sbv, nonce_of(nonce_str@), p),
                                ) && parse_vote(p) == Some(i);
                            assert(cipher_text@ == aead_seal(pbv + sbv, nonce_of(nonce_str@), p));
                            assert(p == plain@);
                        }
                    }
                    assert forall|j: int| 0 <= j <= i64::MAX implies cipher_text@ != aead_seal(
                        pbv + sbv,
                        nonce_of(nonce_str@),
                        dec_digits(j),
                    ) by {
                        lemma_dec_digits_len(j);
                        lemma_dec_digits_facts(j);
                        if cipher_text@ == aead_seal(pbv + sbv, nonce_of(nonce_str@), dec_digits(j))
                        {
                            assert(dec_digits(j) == plain@);
                        }
                    }
                    lemma_spec_encode_unhex(self.token@, pbv, sbv, nonce_str@, cipher_text@);
                }
                Err(())
            },
        }
    }
}

/// A token whose string is not hexadecimal decodes to nothing and is
/// the sealing of nothing.
proof fn lemma_no_decode_without_unhex(token: Seq<char>, pb: Seq<u8>, sb: Seq<u8>, seed: Seq<char>)
    requires
        unhex(token) is None,
    ensures
        forall|i: i64| !decodes_to(token, pb, sb, seed, i),
        forall|j: int, pb2: Seq<u8>, sb2: Seq<u8>|
            0 <= j ==> token != #[trigger] spec_encode(j, pb2, sb2, seed),
{
    assert forall|j: int, pb2: Seq<u8>, sb2: Seq<u8>|
        0 <= j implies token != #[trigger] spec_encode(j, pb2, sb2, seed) by {
        lemma_unhex_hex_of(aead_seal(pb2 + sb2, nonce_of(seed), dec_digits(j)));
    }
}

/// On the paths where decoding fails although the token is valid
/// hexadecimal, the token is not the sealing of any number under the
/// given key halves — otherwise `aead_open` would have accepted it.
proof fn lemma_spec_encode_unhex(
    token: Seq<char>,
    pb: Seq<u8>,
    sb: Seq<u8>,
    seed: Seq<char>,
    cipher_text: Seq<u8>,
)
    requires
        unhex(token) == Some(cipher_text),
        forall|j: int|
            0 <= j <= i64::MAX ==> cipher_text != #[trigger] aead_seal(
                pb + sb,
                nonce_of(seed),
                dec_digits(j),
            ),
    ensures
        forall|j: int|
            0 <= j <= i64::MAX ==> token != #[trigger] spec_encode(j, pb, sb, seed),
{
    assert forall|j: int|
        0 <= j <= i64::MAX implies token != #[trigger] spec_encode(j, pb, sb, seed) by {
        if token == spec_encode(j, pb, sb, seed) {
            lemma_unhex_hex_of(aead_seal(pb + sb, nonce_of(seed), dec_digits(j)));
        }
    }
}

/// A successful open pins down every sealing this token could be: the
/// claimed key halves and number must be the ones just recovered.
proof fn lemma_match_pins_keys(
    token: Seq<char>,
    j: int,
    pb2: Seq<u8>,
    sb2: Seq<u8>,
    seed: Seq<char>,
    cipher_text: Seq<u8>,
    pb: Seq<u8>,
    sb: Seq<u8>,
    plain: Seq<u8>,
)
    requires
        pb.len() == KEY_HALF_LEN,
        sb.len() == KEY_HALF_LEN,
        pb2.len() == KEY_HALF_LEN,
        sb2.len() == KEY_HALF_LEN,
        0 <= j <= i64::MAX,
        unhex(token) == Some(cipher_text),
        token == spec_encode(j, pb2, sb2, seed),
        cipher_text == aead_seal(pb + sb, nonce_of(seed), plain),
        forall|k2: Seq<u8>, p2: Seq<u8>|
            k2.len() == 2 * KEY_HALF_LEN && p2.len() <= MAX_PLAIN_LEN && cipher_text
                == #[trigger] aead_seal(k2, nonce_of(seed), p2) ==> k2 == pb + sb && p2 == plain,
        parse_vote(plain) is Some,
    ensures
        j == parse_vote(plain).unwrap() as int,
        pb2 == pb,
        sb2 == sb,
{
    lemma_unhex_hex_of(aead_seal(pb2 + sb2, nonce_of(seed), dec_digits(j)));
    lemma_dec_digits_len(j);
    lemma_dec_digits_facts(j);
    assert(cipher_text == aead_seal(pb2 + sb2, nonce_of(seed), dec_digits(j)));
    assert(pb2 + sb2 == pb + sb && dec_digits(j) == plain);
    assert(pb2 =~= (pb2 + sb2).take(KEY_HALF_LEN as int));
    assert(pb =~= (pb + sb).take(KEY_HALF_LEN as int));
    assert(sb2 =~= (pb2 + sb2).skip(KEY_HALF_LEN as int));
    assert(sb =~= (pb + sb).skip(KEY_HALF_LEN as int));
    assert(parse_vote(dec_digits(j)) == Some(j as i64));
}

} // verus!
