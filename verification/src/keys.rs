use vstd::prelude::*;

verus! {

#[verifier::external_type_specification]
#[verifier::external_body]
pub struct ExKeys(nostr::Keys);

/// Whether nostr's `Keys::parse` accepts a secret key string, hex or bech32.
pub uninterp spec fn is_valid_nsec(s: Seq<char>) -> bool;

/// What self-addressed decryption returns for a secret key string and a
/// ciphertext payload; a function of those two arguments alone.
pub uninterp spec fn decrypt_of(nsec: Seq<char>, cipher: Seq<char>) -> Option<Seq<char>>;

/// The bech32 form of the public key derived from a secret key string.
pub uninterp spec fn npub_of(nsec: Seq<char>) -> Seq<char>;

/// The hex form of the public key derived from a secret key string.
pub uninterp spec fn pubkey_hex_of(nsec: Seq<char>) -> Seq<char>;

/// The authoring identity: parsed signing keys kept beside the secret key
/// string they were parsed from.
pub struct Identity {
    keys: nostr::Keys,
    nsec: String,
}

impl Identity {
    pub closed spec fn nsec_view(&self) -> Seq<char> {
        self.nsec@
    }

    /// Relies on nostr's Keys::parse: succeeds exactly on the strings it
    /// accepts as a secret key.
    #[verifier::external_body]
    pub fn from_nsec(nsec: &str) -> (r: Option<Identity>)
        ensures
            r is Some <==> is_valid_nsec(nsec@),
            r is Some ==> r->0.nsec_view() == nsec@,
    {
        match nostr::Keys::parse(nsec) {
            Ok(keys) => Some(Identity { keys, nsec: nsec.to_owned() }),
            Err(_) => None,
        }
    }

    /// Relies on nip44::encrypt addressed to the identity itself: it succeeds
    /// exactly when the plaintext's UTF-8 form has between 1 and 65408 bytes,
    /// and its output decrypts back to the plaintext under the same keys.
    #[verifier::external_body]
    pub fn encrypt_self(&self, text: &str) -> (r: Option<String>)
        ensures
            r is Some <==> 1 <= vstd::utf8::encode_utf8(text@).len() <= 65408,
            r is Some ==> decrypt_of(self.nsec_view(), r->0@) == Some(text@),
    {
        nostr::nips::nip44::encrypt(
            self.keys.secret_key(),
            &self.keys.public_key(),
            text,
            nostr::nips::nip44::Version::default(),
        ).ok()
    }

    /// Relies on nip44::decrypt addressed from the identity itself: the
    /// outcome is a function of the keys and the payload alone.
    #[verifier::external_body]
    pub fn decrypt_self(&self, cipher: &str) -> (r: Option<String>)
        ensures
            r is Some <==> decrypt_of(self.nsec_view(), cipher@) is Some,
            r is Some ==> Some(r->0@) == decrypt_of(self.nsec_view(), cipher@),
    {
        nostr::nips::nip44::decrypt(
            self.keys.secret_key(),
            &self.keys.public_key(),
            cipher,
        ).ok()
    }

    /// Relies on Keys::public_key composed with PublicKey::to_hex: the hex
    /// public key, a function of the secret key alone.
    #[verifier::external_body]
    pub fn public_key(&self) -> (r: String)
        ensures
            r@ == pubkey_hex_of(self.nsec_view()),
    {
        self.keys.public_key().to_hex()
    }

    /// Relies on Keys::public_key composed with ToBech32: the bech32 public
    /// key, a function of the secret key alone.
    #[verifier::external_body]
    pub fn npub(&self) -> (r: String)
        ensures
            r@ == npub_of(self.nsec_view()),
    {
        nostr::nips::nip19::ToBech32::to_bech32(&self.keys.public_key()).unwrap_or_default()
    }

    /// Round trip: what the identity encrypts to itself, it decrypts back to
    /// the very plaintext, whenever the plaintext is encryptable at all.
    pub fn encrypt_decrypt_roundtrip(&self, text: &str) -> (r: Option<String>)
        ensures
            r is Some <==> 1 <= vstd::utf8::encode_utf8(text@).len() <= 65408,
            r is Some ==> r->0@ == text@,
    {
        match self.encrypt_self(text) {
            Some(cipher) => self.decrypt_self(cipher.as_str()),
            None => None,
        }
    }
}

impl Clone for Identity {
    /// Relies on Keys being cloneable: the copy denotes the same identity.
    #[verifier::external_body]
    fn clone(&self) -> (r: Self)
        ensures
            r.nsec_view() == self.nsec_view(),
    {
        Identity { keys: self.keys.clone(), nsec: self.nsec.clone() }
    }
}

/// Whether a string parses as a secret key.
pub fn validate_nsec(nsec: &str) -> (r: bool)
    ensures
        r == is_valid_nsec(nsec@),
{
    Identity::from_nsec(nsec).is_some()
}

/// The bech32 public key for a secret key string, or the empty string when
/// the input does not parse.
pub fn derive_npub(nsec: &str) -> (r: String)
    ensures
        is_valid_nsec(nsec@) ==> r@ == npub_of(nsec@),
        !is_valid_nsec(nsec@) ==> r@ == Seq::<char>::empty(),
{
    match Identity::from_nsec(nsec) {
        Some(id) => id.npub(),
        None => String::new(),
    }
}

/// Key management helpers offered to embedding applications.
pub struct KeysHelper;

impl KeysHelper {
    pub fn new() -> (r: KeysHelper) {
        KeysHelper
    }

    /// Relies on Keys::generate and ToBech32: a freshly generated secret key
    /// serialises to a string that Keys::parse accepts.
    #[verifier::external_body]
    pub fn generate_nsec(&self) -> (r: String)
        ensures
            is_valid_nsec(r@),
    {
        nostr::nips::nip19::ToBech32::to_bech32(nostr::Keys::generate().secret_key())
            .unwrap_or_default()
    }

    pub fn validate_nsec(&self, nsec: String) -> (r: bool)
        ensures
            r == is_valid_nsec(nsec@),
    {
        validate_nsec(nsec.as_str())
    }

    pub fn derive_npub(&self, nsec: String) -> (r: String)
        ensures
            is_valid_nsec(nsec@) ==> r@ == npub_of(nsec@),
            !is_valid_nsec(nsec@) ==> r@ == Seq::<char>::empty(),
    {
        derive_npub(nsec.as_str())
    }
}

} // verus!
