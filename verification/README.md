# onetdns

The decisions of a recursive DNS server, verified with Verus: what to ask next and of
whom, which replies to believe, what to keep and for how long, whom to answer, and
what to send.

The library does no input or output. It takes plain values, such as messages, octets,
clock readings and random bits, and gives plain values back. Sockets, threads and
clocks are in `app/`, which performs what the library decides and hands the outcome
back. Signatures and hashes over keys are computed by whoever drives the library; it
says which records are to be checked against which keys, and what follows from the
verdict.

## Layout

| Modules | Subject |
| --- | --- |
| `name`, `message`, `addr`, `net`, `sockaddr` | names, messages, addresses and prefixes |
| `query`, `response`, `encode` | making queries, reading replies, fitting answers to a size |
| `iterate`, `search`, `nsaddr` | following referrals, choosing among servers, finding their addresses |
| `resolve`, `resolution`, `recursor` | a whole question with its aliases, and the recursor's settings and memory |
| `chain`, `proving`, `validate` | the chain of trust, gathering keys, judging answers and denials |
| `lane`, `slots`, `reactor` | many questions at once on one thread |
| `cache`, `lru`, `table`, `infra` | what is remembered of zones, keys and servers |
| `acl`, `subnet`, `cookie`, `siphash`, `rate`, `bucket`, `limits`, `connections` | who may ask, and how much |
| `datagram`, `stream`, `proxy`, `transport` | the server's sockets, one step at a time |
| `honor`, `seqs` | the wish for no validation, and helpers |

Public proof functions named `law_*` state what holds of several functions together.
